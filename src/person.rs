//! A record type with three fields: a name, an age and a note.

use vstd::prelude::*;

use crate::record::{keys_match, TsvError, TsvSerialize};
use crate::text::{join, split, split_str, str_views};
use crate::value::TsvValue;

verus! {

/// A person, written as the fields `name`, `age` and `note`, in that order.
#[derive(Clone, Debug, PartialEq, Eq)]
pub struct Person {
    pub name: String,
    pub age: u32,
    pub note: String,
}

impl View for Person {
    type V = (Seq<char>, u32, Seq<char>);

    open spec fn view(&self) -> (Seq<char>, u32, Seq<char>) {
        (self.name@, self.age, self.note@)
    }
}

impl TsvSerialize for Person {
    open spec fn key_names() -> Seq<Seq<char>> {
        seq!["name"@, "age"@, "note"@]
    }

    open spec fn field_texts(v: (Seq<char>, u32, Seq<char>)) -> Seq<Seq<char>> {
        seq![String::text_of(v.0), u32::text_of(v.1), String::text_of(v.2)]
    }

    open spec fn parse_fields(parts: Seq<Seq<char>>) -> Option<(Seq<char>, u32, Seq<char>)> {
        if parts.len() == 3 {
            match (
                String::parse_text(parts[0]),
                u32::parse_text(parts[1]),
                String::parse_text(parts[2]),
            ) {
                (Some(name), Some(age), Some(note)) => Some((name, age, note)),
                _ => None,
            }
        } else {
            None
        }
    }

    fn keys() -> (r: &'static [&'static str]) {
        let r: &'static [&'static str] = &["name", "age", "note"];
        assert(str_views(r@) =~= seq!["name"@, "age"@, "note"@]);
        r
    }

    fn to_line(&self) -> (r: String) {
        let mut s = self.name.serialize();
        crate::text::push_char(&mut s, '\t');
        s.append(self.age.serialize().as_str());
        crate::text::push_char(&mut s, '\t');
        s.append(self.note.serialize().as_str());
        let ghost parts = Self::field_texts(self@);
        assert(parts.drop_last() =~= seq![parts[0], parts[1]]);
        assert(seq![parts[0], parts[1]].drop_last() =~= seq![parts[0]]);
        assert(join(seq![parts[0]], '\t') == parts[0]);
        assert(join(seq![parts[0], parts[1]], '\t') == parts[0].push('\t') + parts[1]);
        assert(s@ =~= join(parts, '\t'));
        s
    }

    fn from_line(line: &str, keys: &[&str]) -> (r: Result<Person, TsvError>) {
        if !keys_match(Self::keys(), keys) {
            return Err(TsvError::KeyMismatch);
        }
        let parts = split_str(line, '\t');
        assert(str_views(keys@).len() == keys@.len());
        assert(split(line@, '\t').len() == parts@.len());
        if parts.len() != 3 {
            return Err(TsvError::FieldCount);
        }
        assert(parts@[0]@ == split(line@, '\t')[0]);
        assert(parts@[1]@ == split(line@, '\t')[1]);
        assert(parts@[2]@ == split(line@, '\t')[2]);
        let name = match String::deserialize(parts[0].as_str()) {
            Some(v) => v,
            None => return Err(TsvError::BadValue),
        };
        let age = match u32::deserialize(parts[1].as_str()) {
            Some(v) => v,
            None => return Err(TsvError::BadValue),
        };
        let note = match String::deserialize(parts[2].as_str()) {
            Some(v) => v,
            None => return Err(TsvError::BadValue),
        };
        Ok(Person { name, age, note })
    }

    proof fn lemma_fields_round_trip(v: (Seq<char>, u32, Seq<char>)) {
        u32::lemma_parse_text_of(v.1);
    }
}

} // verus!
