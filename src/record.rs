//! Records: a fixed, named, ordered list of scalar fields, each record one line.

use vstd::prelude::*;

use crate::text::{chars_of, join, split, split_str, str_views};
use crate::value::TsvValue;

verus! {

/// Why a block of text could not be read back as records.
#[derive(Clone, Copy, Debug, PartialEq, Eq, Structural)]
pub enum TsvError {
    /// The text has no lines, so no header.
    MissingHeader,
    /// The header's names differ from the record type's, in number, name or order.
    KeyMismatch,
    /// A line has more or fewer tab-separated parts than the record has fields.
    FieldCount,
    /// A part is not the text of a value of its field's type.
    BadValue,
}

/// What reading `line` under the header names `header` gives for record type `T`.
pub open spec fn line_result<T: TsvSerialize>(line: Seq<char>, header: Seq<Seq<char>>) -> Result<
    T::V,
    TsvError,
> {
    let parts = split(line, '\t');
    if header != T::key_names() {
        Err(TsvError::KeyMismatch)
    } else if parts.len() != header.len() {
        Err(TsvError::FieldCount)
    } else {
        match T::parse_fields(parts) {
            Some(v) => Ok(v),
            None => Err(TsvError::BadValue),
        }
    }
}

/// A record type: its field names, and the conversion of a record to and from one line.
pub trait TsvSerialize: Sized + View {
    /// The declared field names, in order.
    spec fn key_names() -> Seq<Seq<char>>;

    /// The canonical texts of a record's fields, in declared order.
    spec fn field_texts(v: Self::V) -> Seq<Seq<char>>;

    /// The record whose fields have the texts `parts`, in declared order, if any.
    spec fn parse_fields(parts: Seq<Seq<char>>) -> Option<Self::V>;

    /// The declared field names, in order.
    fn keys() -> (r: &'static [&'static str])
        ensures
            str_views(r@) == Self::key_names(),
    ;

    /// The record's field texts joined by tabs, without a line terminator.
    fn to_line(&self) -> (r: String)
        ensures
            r@ == join(Self::field_texts(self@), '\t'),
    ;

    /// Reads one record from `line`, where `keys` are the names that the header gave.
    fn from_line(line: &str, keys: &[&str]) -> (r: Result<Self, TsvError>)
        ensures
            match r {
                Ok(v) => {
                    &&& str_views(keys@) == Self::key_names()
                    &&& split(line@, '\t').len() == keys@.len()
                    &&& Self::parse_fields(split(line@, '\t')) == Some(v@)
                },
                Err(e) => if str_views(keys@) != Self::key_names() {
                    e == TsvError::KeyMismatch
                } else if split(line@, '\t').len() != keys@.len() {
                    e == TsvError::FieldCount
                } else {
                    e == TsvError::BadValue && Self::parse_fields(split(line@, '\t')) is None
                },
            },
    ;

    /// A record has one text per declared field, and those texts read back as the record.
    proof fn lemma_fields_round_trip(v: Self::V)
        ensures
            Self::field_texts(v).len() == Self::key_names().len(),
            Self::parse_fields(Self::field_texts(v)) == Some(v),
    ;
}

/// Whether two strings hold the same characters.
pub fn str_eq(a: &str, b: &str) -> (r: bool)
    ensures
        r == (a@ == b@),
{
    let x = chars_of(a);
    let y = chars_of(b);
    if x.len() != y.len() {
        return false;
    }
    let mut i: usize = 0;
    while i < x.len()
        invariant
            x@ == a@,
            y@ == b@,
            x.len() == y.len(),
            i <= x.len(),
            forall|j: int| 0 <= j < i ==> x@[j] == y@[j],
        decreases x.len() - i,
    {
        if x[i] != y[i] {
            return false;
        }
        i = i + 1;
    }
    assert(x@ =~= y@);
    true
}

/// Whether two name lists agree in length, names and order.
pub fn keys_match(declared: &[&str], observed: &[&str]) -> (r: bool)
    ensures
        r == (str_views(declared@) == str_views(observed@)),
{
    if declared.len() != observed.len() {
        assert(str_views(declared@).len() != str_views(observed@).len());
        return false;
    }
    let mut i: usize = 0;
    while i < declared.len()
        invariant
            declared.len() == observed.len(),
            i <= declared.len(),
            forall|j: int| 0 <= j < i ==> declared@[j]@ == observed@[j]@,
        decreases declared.len() - i,
    {
        if !str_eq(declared[i], observed[i]) {
            assert(str_views(declared@)[i as int] != str_views(observed@)[i as int]);
            return false;
        }
        i = i + 1;
    }
    assert(str_views(declared@) =~= str_views(observed@));
    true
}

impl<A: TsvValue, B: TsvValue> TsvSerialize for (A, B) {
    open spec fn key_names() -> Seq<Seq<char>> {
        seq!["key"@, "value"@]
    }

    open spec fn field_texts(v: (A::V, B::V)) -> Seq<Seq<char>> {
        seq![A::text_of(v.0), B::text_of(v.1)]
    }

    open spec fn parse_fields(parts: Seq<Seq<char>>) -> Option<(A::V, B::V)> {
        if parts.len() == 2 {
            match (A::parse_text(parts[0]), B::parse_text(parts[1])) {
                (Some(a), Some(b)) => Some((a, b)),
                _ => None,
            }
        } else {
            None
        }
    }

    fn keys() -> (r: &'static [&'static str]) {
        let r: &'static [&'static str] = &["key", "value"];
        assert(str_views(r@) =~= seq!["key"@, "value"@]);
        r
    }

    fn to_line(&self) -> (r: String) {
        let a = self.0.serialize();
        let b = self.1.serialize();
        let mut s = a;
        crate::text::push_char(&mut s, '\t');
        s.append(b.as_str());
        let ghost parts = Self::field_texts(self@);
        assert(parts.drop_last() =~= seq![parts[0]]);
        assert(join(seq![parts[0]], '\t') == parts[0]);
        assert(s@ =~= join(parts, '\t'));
        s
    }

    fn from_line(line: &str, keys: &[&str]) -> (r: Result<(A, B), TsvError>) {
        if !keys_match(Self::keys(), keys) {
            return Err(TsvError::KeyMismatch);
        }
        let parts = split_str(line, '\t');
        assert(str_views(keys@).len() == keys@.len());
        assert(split(line@, '\t').len() == parts@.len());
        if parts.len() != 2 {
            return Err(TsvError::FieldCount);
        }
        assert(parts@[0]@ == split(line@, '\t')[0]);
        assert(parts@[1]@ == split(line@, '\t')[1]);
        let a = match A::deserialize(parts[0].as_str()) {
            Some(a) => a,
            None => return Err(TsvError::BadValue),
        };
        let b = match B::deserialize(parts[1].as_str()) {
            Some(b) => b,
            None => return Err(TsvError::BadValue),
        };
        Ok((a, b))
    }

    proof fn lemma_fields_round_trip(v: (A::V, B::V)) {
        A::lemma_parse_text_of(v.0);
        B::lemma_parse_text_of(v.1);
    }
}

} // verus!
