//! Tables: a header line of field names, then one line per record.

use vstd::prelude::*;

use crate::record::{line_result, TsvError, TsvSerialize};
use crate::text::{as_strs, join, lines, split, split_str, str_views};

verus! {

/// The lines of the table for `recs`: the header, then one line per record.
pub open spec fn table_lines<T: TsvSerialize>(recs: Seq<T::V>) -> Seq<Seq<char>> {
    seq![join(T::key_names(), '\t')] + recs.map_values(|v: T::V| join(T::field_texts(v), '\t'))
}

/// The text of the table for `recs`: its lines, each ended by a newline.
pub open spec fn encode_text<T: TsvSerialize>(recs: Seq<T::V>) -> Seq<char> {
    join(table_lines::<T>(recs), '\n').push('\n')
}

/// The records on the lines `ls` under the header names `header`, or the
/// error of the first line that fails.
pub open spec fn decode_lines<T: TsvSerialize>(
    ls: Seq<Seq<char>>,
    header: Seq<Seq<char>>,
) -> Result<Seq<T::V>, TsvError>
    decreases ls.len(),
{
    if ls.len() == 0 {
        Ok(Seq::empty())
    } else {
        match decode_lines::<T>(ls.drop_last(), header) {
            Err(e) => Err(e),
            Ok(vs) => match line_result::<T>(ls.last(), header) {
                Ok(v) => Ok(vs.push(v)),
                Err(e) => Err(e),
            },
        }
    }
}

/// What reading the text `s` as a table of `T` gives.
pub open spec fn decode_text<T: TsvSerialize>(s: Seq<char>) -> Result<Seq<T::V>, TsvError> {
    let ls = lines(s);
    if ls.len() == 0 {
        Err(TsvError::MissingHeader)
    } else if split(ls[0], '\t') != T::key_names() {
        Err(TsvError::KeyMismatch)
    } else {
        decode_lines::<T>(ls.drop_first(), split(ls[0], '\t'))
    }
}

/// The views of a sequence of records.
pub open spec fn record_views<T: View>(s: Seq<T>) -> Seq<T::V> {
    s.map_values(|v: T| v@)
}

/// Once a prefix of the lines fails, every longer one fails the same way.
proof fn lemma_decode_lines_error<T: TsvSerialize>(ls: Seq<Seq<char>>, header: Seq<Seq<char>>, k: int)
    requires
        0 <= k <= ls.len(),
        decode_lines::<T>(ls.take(k), header) is Err,
    ensures
        decode_lines::<T>(ls, header) == decode_lines::<T>(ls.take(k), header),
    decreases ls.len() - k,
{
    if k < ls.len() {
        assert(ls.take(k + 1).drop_last() =~= ls.take(k));
        lemma_decode_lines_error::<T>(ls, header, k + 1);
    } else {
        assert(ls.take(k) =~= ls);
    }
}

/// The lines of `s` are its newline-separated parts, less a final empty one.
proof fn lemma_lines_of_split(s: Seq<char>)
    ensures
        split(s, '\n').len() >= 1,
        lines(s) == if split(s, '\n').last().len() == 0 {
            split(s, '\n').drop_last()
        } else {
            split(s, '\n')
        },
{
    crate::text::lemma_split_nonempty(s, '\n');
    if s.len() == 0 {
        assert(split(s, '\n').drop_last() =~= Seq::<Seq<char>>::empty());
    } else if s.last() == '\n' {
        assert(split(s, '\n').drop_last() =~= split(s.drop_last(), '\n'));
    } else {
        crate::text::lemma_split_nonempty(s.drop_last(), '\n');
    }
}

/// Writes `values` as a table: the header line, then one line per record, in order.
pub fn to_tsv_string<T: TsvSerialize>(values: &[T]) -> (r: String)
    ensures
        r@ == encode_text::<T>(record_views(values@)),
{
    let keys = T::keys();
    let ghost names = str_views(keys@);
    let mut result = String::new();
    let mut i: usize = 0;
    while i < keys.len()
        invariant
            names == str_views(keys@),
            i <= keys.len(),
            result@ == join(names.take(i as int), '\t'),
        decreases keys.len() - i,
    {
        if i > 0 {
            crate::text::push_char(&mut result, '\t');
        }
        result.append(keys[i]);
        assert(names.take(i + 1).drop_last() =~= names.take(i as int));
        if i == 0 {
            assert(names.take(1) =~= seq![keys@[0]@]);
        }
        assert(result@ =~= join(names.take(i + 1), '\t'));
        i = i + 1;
    }
    assert(names.take(keys.len() as int) =~= names);
    crate::text::push_char(&mut result, '\n');
    let ghost recs = record_views(values@);
    assert(table_lines::<T>(recs.take(0)) =~= seq![join(names, '\t')]);
    let mut k: usize = 0;
    while k < values.len()
        invariant
            k <= values.len(),
            recs == record_views(values@),
            result@ == join(table_lines::<T>(recs.take(k as int)), '\n').push('\n'),
        decreases values.len() - k,
    {
        let line = values[k].to_line();
        let ghost before = table_lines::<T>(recs.take(k as int));
        let ghost after = table_lines::<T>(recs.take(k + 1));
        assert(after.drop_last() =~= before);
        assert(after.last() == line@);
        result.append(line.as_str());
        crate::text::push_char(&mut result, '\n');
        assert(result@ =~= join(after, '\n').push('\n'));
        k = k + 1;
    }
    assert(recs.take(values.len() as int) =~= recs);
    result
}

/// Reads a table of `T`: the first line gives the field names, which must be
/// `T`'s, and every later line one record, in order. The first failure ends
/// the reading.
pub fn from_tsv_string<T: TsvSerialize>(s: String) -> (r: Result<Vec<T>, TsvError>)
    ensures
        match r {
            Ok(v) => decode_text::<T>(s@) == Ok::<Seq<T::V>, TsvError>(record_views(v@)),
            Err(e) => decode_text::<T>(s@) == Err::<Seq<T::V>, TsvError>(e),
        },
{
    let parts = split_str(s.as_str(), '\n');
    proof {
        lemma_lines_of_split(s@);
    }
    let n: usize = if parts[parts.len() - 1].as_str().is_empty() {
        parts.len() - 1
    } else {
        parts.len()
    };
    let ghost ls = lines(s@);
    assert(ls.len() == n);
    assert(forall|j: int| 0 <= j < n ==> #[trigger] ls[j] == parts@[j]@);
    if n == 0 {
        return Err(TsvError::MissingHeader);
    }
    let header_parts = split_str(parts[0].as_str(), '\t');
    let header = as_strs(&header_parts);
    let ghost names = split(ls[0], '\t');
    assert(str_views(header@) == names);
    if !crate::record::keys_match(T::keys(), header.as_slice()) {
        return Err(TsvError::KeyMismatch);
    }
    let ghost body = ls.drop_first();
    let mut out: Vec<T> = Vec::new();
    let mut j: usize = 1;
    assert(body.take(0) =~= Seq::<Seq<char>>::empty());
    assert(record_views(out@) =~= Seq::<T::V>::empty());
    while j < n
        invariant
            1 <= j <= n,
            n == ls.len(),
            n <= parts.len(),
            ls == lines(s@),
            names == split(ls[0], '\t'),
            body == ls.drop_first(),
            names == T::key_names(),
            str_views(header@) == names,
            forall|q: int| 0 <= q < n ==> #[trigger] ls[q] == parts@[q]@,
            decode_lines::<T>(body.take(j - 1), names) == Ok::<Seq<T::V>, TsvError>(
                record_views(out@),
            ),
        decreases n - j,
    {
        let ghost prefix = body.take(j as int);
        assert(prefix.drop_last() =~= body.take(j - 1));
        assert(prefix.last() == ls[j as int]);
        let line = parts[j].as_str();
        let keys = header.as_slice();
        assert(line@ == ls[j as int]);
        assert(str_views(keys@).len() == keys@.len());
        match T::from_line(line, keys) {
            Ok(v) => {
                assert(line_result::<T>(ls[j as int], names) == Ok::<T::V, TsvError>(v@));
                let ghost old_out = out@;
                out.push(v);
                assert(record_views(out@) =~= record_views(old_out).push(v@));
            },
            Err(e) => {
                assert(line_result::<T>(ls[j as int], names) == Err::<T::V, TsvError>(e));
                assert(decode_lines::<T>(prefix, names) == Err::<Seq<T::V>, TsvError>(e));
                proof {
                    lemma_decode_lines_error::<T>(body, names, j as int);
                }
                return Err(e);
            },
        }
        j = j + 1;
    }
    assert(body.take(n - 1) =~= body);
    Ok(out)
}

} // verus!
