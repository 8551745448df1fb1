//! What holds of encoding and decoding tables, over all inputs.

use vstd::prelude::*;

use crate::record::{line_result, TsvError, TsvSerialize};
use crate::table::{decode_lines, decode_text, encode_text, table_lines};
use crate::text::{
    join, lemma_join_excludes, lemma_lines_join, lemma_split_join, lines, none_contains, split,
};
use crate::value::TsvValue;

verus! {

/// The field names make a header that reads back: at least one name, and no
/// name holds a tab or a newline.
pub open spec fn keys_well_formed<T: TsvSerialize>() -> bool {
    &&& T::key_names().len() >= 1
    &&& none_contains(T::key_names(), '\t')
    &&& none_contains(T::key_names(), '\n')
}

/// No field text of any of the records holds a tab or a newline.
pub open spec fn records_clean<T: TsvSerialize>(recs: Seq<T::V>) -> bool {
    forall|i: int|
        0 <= i < recs.len() ==> {
            &&& none_contains(T::field_texts(#[trigger] recs[i]), '\t')
            &&& none_contains(T::field_texts(recs[i]), '\n')
        }
}

/// A clean record's line reads back as that record under its own header.
proof fn lemma_line_reads_back<T: TsvSerialize>(v: T::V)
    requires
        keys_well_formed::<T>(),
        none_contains(T::field_texts(v), '\t'),
    ensures
        split(join(T::field_texts(v), '\t'), '\t') == T::field_texts(v),
        line_result::<T>(join(T::field_texts(v), '\t'), T::key_names()) == Ok::<T::V, TsvError>(v),
{
    T::lemma_fields_round_trip(v);
    lemma_split_join(T::field_texts(v), '\t');
}

/// The record lines of a clean table read back as its records.
proof fn lemma_decode_records<T: TsvSerialize>(recs: Seq<T::V>)
    requires
        keys_well_formed::<T>(),
        records_clean::<T>(recs),
    ensures
        decode_lines::<T>(table_lines::<T>(recs).drop_first(), T::key_names()) == Ok::<
            Seq<T::V>,
            TsvError,
        >(recs),
    decreases recs.len(),
{
    let body = table_lines::<T>(recs).drop_first();
    if recs.len() == 0 {
        assert(body =~= Seq::<Seq<char>>::empty());
        assert(recs =~= Seq::<T::V>::empty());
    } else {
        assert(body.len() == recs.len());
        let init = recs.drop_last();
        assert(records_clean::<T>(init)) by {
            assert forall|i: int| 0 <= i < init.len() implies {
                &&& none_contains(T::field_texts(#[trigger] init[i]), '\t')
                &&& none_contains(T::field_texts(init[i]), '\n')
            } by {
                assert(init[i] == recs[i]);
            }
        }
        lemma_decode_records::<T>(init);
        assert(body.drop_last() =~= table_lines::<T>(init).drop_first());
        let v = recs.last();
        assert(v == recs[recs.len() - 1]);
        lemma_line_reads_back::<T>(v);
        assert(body.last() == join(T::field_texts(v), '\t'));
        assert(init.push(v) =~= recs);
    }
}

/// Every line of a clean table is free of newlines.
proof fn lemma_table_lines_clean<T: TsvSerialize>(recs: Seq<T::V>)
    requires
        keys_well_formed::<T>(),
        records_clean::<T>(recs),
    ensures
        none_contains(table_lines::<T>(recs), '\n'),
        table_lines::<T>(recs).len() == recs.len() + 1,
{
    let ls = table_lines::<T>(recs);
    assert forall|i: int| 0 <= i < ls.len() implies !(#[trigger] ls[i]).contains('\n') by {
        if i == 0 {
            lemma_join_excludes(T::key_names(), '\t', '\n');
        } else {
            assert(ls[i] == join(T::field_texts(recs[i - 1]), '\t'));
            lemma_join_excludes(T::field_texts(recs[i - 1]), '\t', '\n');
        }
    }
}

/// Decoding the encoding of records gives the same records, in the same order,
/// where the names make a readable header and no field text holds a tab or a newline.
pub proof fn lemma_round_trip<T: TsvSerialize>(recs: Seq<T::V>)
    requires
        keys_well_formed::<T>(),
        records_clean::<T>(recs),
    ensures
        decode_text::<T>(encode_text::<T>(recs)) == Ok::<Seq<T::V>, TsvError>(recs),
{
    let ls = table_lines::<T>(recs);
    lemma_table_lines_clean::<T>(recs);
    lemma_lines_join(ls);
    lemma_split_join(T::key_names(), '\t');
    lemma_decode_records::<T>(recs);
}

/// Encoding no records gives exactly the header line: the names joined by
/// tabs, then a newline.
pub proof fn lemma_encode_empty<T: TsvSerialize>()
    ensures
        encode_text::<T>(Seq::empty()) == join(T::key_names(), '\t').push('\n'),
        keys_well_formed::<T>() ==> lines(encode_text::<T>(Seq::empty())) == seq![
            join(T::key_names(), '\t'),
        ],
{
    let ls = table_lines::<T>(Seq::empty());
    assert(ls =~= seq![join(T::key_names(), '\t')]);
    if keys_well_formed::<T>() {
        lemma_table_lines_clean::<T>(Seq::empty());
        lemma_lines_join(ls);
    }
}

/// In the encoding of clean records, the header line holds the declared names
/// and line `i + 1` holds the texts of record `i`'s fields, both in declared order.
pub proof fn lemma_field_order<T: TsvSerialize>(recs: Seq<T::V>, i: int)
    requires
        keys_well_formed::<T>(),
        records_clean::<T>(recs),
        0 <= i < recs.len(),
    ensures
        lines(encode_text::<T>(recs)).len() == recs.len() + 1,
        split(lines(encode_text::<T>(recs))[0], '\t') == T::key_names(),
        split(lines(encode_text::<T>(recs))[i + 1], '\t') == T::field_texts(recs[i]),
{
    let ls = table_lines::<T>(recs);
    lemma_table_lines_clean::<T>(recs);
    lemma_lines_join(ls);
    lemma_split_join(T::key_names(), '\t');
    lemma_line_reads_back::<T>(recs[i]);
}

/// A scalar has one canonical text: equal values give equal texts, and the
/// text reads back as the value.
pub proof fn lemma_canonical_text<V: TsvValue>(a: V::V, b: V::V)
    requires
        a == b,
    ensures
        V::text_of(a) == V::text_of(b),
        V::parse_text(V::text_of(a)) == Some(a),
{
    V::lemma_parse_text_of(a);
}

/// A table whose header differs from the declared names, in number, name or
/// order, is refused.
pub proof fn lemma_header_mismatch<T: TsvSerialize>(s: Seq<char>)
    requires
        lines(s).len() >= 1,
        split(lines(s)[0], '\t') != T::key_names(),
    ensures
        decode_text::<T>(s) == Err::<Seq<T::V>, TsvError>(TsvError::KeyMismatch),
{
}

} // verus!
