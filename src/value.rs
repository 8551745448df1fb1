//! Scalar values and their canonical text.

use vstd::prelude::*;

use crate::text::chars_of;

verus! {

/// Whether `c` is an ASCII decimal digit.
pub open spec fn is_digit(c: char) -> bool {
    '0' <= c && c <= '9'
}

/// The value of a decimal digit.
pub open spec fn digit_value(c: char) -> nat {
    ((c as u32) - ('0' as u32)) as nat
}

/// The digit for `d < 10`.
pub open spec fn digit_char(d: nat) -> char {
    ((d + 48) as u8) as char
}

/// The decimal form of `n`: no sign, no leading zeros.
pub open spec fn decimal(n: nat) -> Seq<char>
    decreases n,
{
    if n < 10 {
        seq![digit_char(n)]
    } else {
        decimal(n / 10).push(digit_char(n % 10))
    }
}

/// Whether every character of `s` is a digit.
pub open spec fn all_digits(s: Seq<char>) -> bool {
    forall|i: int| 0 <= i < s.len() ==> is_digit(#[trigger] s[i])
}

/// The number that a digit string denotes; leading zeros count for nothing.
pub open spec fn digits_value(s: Seq<char>) -> nat
    decreases s.len(),
{
    if s.len() == 0 {
        0
    } else {
        digits_value(s.drop_last()) * 10 + digit_value(s.last())
    }
}

/// A non-empty run of digits, read as a number.
pub open spec fn parse_digits(d: Seq<char>) -> Option<nat> {
    if d.len() > 0 && all_digits(d) {
        Some(digits_value(d))
    } else {
        None
    }
}

/// An unsigned number: an optional `+`, then digits.
pub open spec fn parse_unsigned(s: Seq<char>) -> Option<nat> {
    if s.len() > 0 && s[0] == '+' {
        parse_digits(s.drop_first())
    } else {
        parse_digits(s)
    }
}

/// A signed number: an optional `+` or `-`, then digits.
pub open spec fn parse_signed(s: Seq<char>) -> Option<int> {
    if s.len() > 0 && s[0] == '-' {
        match parse_digits(s.drop_first()) {
            Some(n) => Some(-n),
            None => None,
        }
    } else {
        match parse_unsigned(s) {
            Some(n) => Some(n as int),
            None => None,
        }
    }
}

/// The canonical form of a signed number: `-` before the magnitude when negative.
pub open spec fn signed_text(v: int) -> Seq<char> {
    if v < 0 {
        seq!['-'] + decimal((-v) as nat)
    } else {
        decimal(v as nat)
    }
}

proof fn lemma_digit(d: nat)
    requires
        d < 10,
    ensures
        is_digit(digit_char(d)),
        digit_value(digit_char(d)) == d,
{
}

/// The decimal form is a non-empty run of digits that reads back as `n`.
pub proof fn lemma_decimal(n: nat)
    ensures
        decimal(n).len() > 0,
        all_digits(decimal(n)),
        digits_value(decimal(n)) == n,
    decreases n,
{
    if n < 10 {
        lemma_digit(n);
        assert(decimal(n).drop_last() =~= Seq::<char>::empty());
        assert(digits_value(Seq::<char>::empty()) == 0);
        assert(decimal(n).last() == digit_char(n));
    } else {
        lemma_decimal(n / 10);
        lemma_digit(n % 10);
        assert(decimal(n).drop_last() =~= decimal(n / 10));
        assert(decimal(n).last() == digit_char(n % 10));
        assert(n == (n / 10) * 10 + n % 10) by (nonlinear_arith);
        assert forall|i: int| 0 <= i < decimal(n).len() implies is_digit(
            #[trigger] decimal(n)[i],
        ) by {
            if i < decimal(n).len() - 1 {
                assert(decimal(n)[i] == decimal(n / 10)[i]);
            }
        }
    }
}

/// An unsigned number reads back from its decimal form.
pub proof fn lemma_parse_decimal(n: nat)
    ensures
        parse_unsigned(decimal(n)) == Some(n),
{
    lemma_decimal(n);
    assert(is_digit(decimal(n)[0]));
}

/// A signed number reads back from its canonical form.
pub proof fn lemma_parse_signed_text(v: int)
    ensures
        parse_signed(signed_text(v)) == Some(v),
{
    if v < 0 {
        let m = (-v) as nat;
        lemma_decimal(m);
        assert((seq!['-'] + decimal(m)).drop_first() =~= decimal(m));
        assert((seq!['-'] + decimal(m))[0] == '-');
    } else {
        lemma_decimal(v as nat);
        lemma_parse_decimal(v as nat);
        assert(is_digit(decimal(v as nat)[0]));
    }
}

/// A longer digit string never denotes less than its prefix.
proof fn lemma_digits_value_prefix(s: Seq<char>, k: int)
    requires
        0 <= k <= s.len(),
    ensures
        digits_value(s.take(k)) <= digits_value(s),
    decreases s.len() - k,
{
    if k < s.len() {
        lemma_digits_value_prefix(s, k + 1);
        assert(s.take(k + 1).drop_last() =~= s.take(k));
        let x = digits_value(s.take(k));
        assert(x <= x * 10) by (nonlinear_arith);
    } else {
        assert(s.take(k) =~= s);
    }
}

/// Appends the decimal form of `n`.
pub fn push_decimal(s: &mut String, n: u64)
    ensures
        final(s)@ == old(s)@ + decimal(n as nat),
    decreases n,
{
    if n >= 10 {
        push_decimal(s, n / 10);
    }
    crate::text::push_char(s, exec_digit(n % 10));
    assert(final(s)@ =~= old(s)@ + decimal(n as nat));
}

/// Reads `cs[start..]` as a run of digits, where its value fits in a `u64`.
pub fn read_digits(cs: &Vec<char>, start: usize) -> (r: Option<u64>)
    requires
        start <= cs.len(),
    ensures
        match r {
            Some(m) => parse_digits(cs@.subrange(start as int, cs.len() as int)) == Some(
                m as nat,
            ),
            None => match parse_digits(cs@.subrange(start as int, cs.len() as int)) {
                Some(v) => v > u64::MAX,
                None => true,
            },
        },
{
    let ghost d = cs@.subrange(start as int, cs.len() as int);
    if start == cs.len() {
        return None;
    }
    let mut acc: u64 = 0;
    let mut i: usize = start;
    assert(d.take(0) =~= Seq::<char>::empty());
    while i < cs.len()
        invariant
            start <= i <= cs.len(),
            d == cs@.subrange(start as int, cs.len() as int),
            all_digits(d.take(i - start)),
            acc as nat == digits_value(d.take(i - start)),
        decreases cs.len() - i,
    {
        let c = cs[i];
        assert(d[i - start] == c);
        let ghost pre = d.take(i - start + 1);
        assert(pre.drop_last() =~= d.take(i - start));
        assert(pre.last() == c);
        if !('0' <= c && c <= '9') {
            assert(!all_digits(d)) by {
                assert(!is_digit(d[i - start]));
            }
            return None;
        }
        let dv = (c as u32 - '0' as u32) as u64;
        match acc.checked_mul(10) {
            Some(t) => match t.checked_add(dv) {
                Some(u) => {
                    acc = u;
                },
                None => {
                    proof {
                        lemma_digits_value_prefix(d, i - start + 1);
                    }
                    return None;
                },
            },
            None => {
                proof {
                    lemma_digits_value_prefix(d, i - start + 1);
                }
                return None;
            },
        }
        i = i + 1;
        assert(all_digits(d.take(i - start))) by {
            assert forall|j: int| 0 <= j < d.take(i - start).len() implies is_digit(
                #[trigger] d.take(i - start)[j],
            ) by {
                if j < i - 1 - start {
                    assert(d.take(i - start)[j] == d.take(i - 1 - start)[j]);
                }
            }
        }
    }
    assert(d.take(cs.len() - start) =~= d);
    Some(acc)
}

/// Reads an unsigned number whose value fits in a `u64`.
fn read_unsigned(s: &str) -> (r: Option<u64>)
    ensures
        match r {
            Some(m) => parse_unsigned(s@) == Some(m as nat),
            None => match parse_unsigned(s@) {
                Some(v) => v > u64::MAX,
                None => true,
            },
        },
{
    let cs = chars_of(s);
    if cs.len() > 0 && cs[0] == '+' {
        assert(cs@.subrange(1, cs.len() as int) =~= s@.drop_first());
        read_digits(&cs, 1)
    } else {
        assert(cs@.subrange(0, cs.len() as int) =~= s@);
        read_digits(&cs, 0)
    }
}

/// Reads a signed number whose value fits in an `i64`.
fn read_signed(s: &str) -> (r: Option<i64>)
    ensures
        match r {
            Some(v) => parse_signed(s@) == Some(v as int),
            None => match parse_signed(s@) {
                Some(v) => v < i64::MIN || v > i64::MAX,
                None => true,
            },
        },
{
    let cs = chars_of(s);
    if cs.len() > 0 && cs[0] == '-' {
        assert(cs@.subrange(1, cs.len() as int) =~= s@.drop_first());
        match read_digits(&cs, 1) {
            Some(m) => {
                if m <= 9223372036854775808 {
                    if m == 9223372036854775808 {
                        Some(i64::MIN)
                    } else {
                        Some(-(m as i64))
                    }
                } else {
                    None
                }
            },
            None => None,
        }
    } else {
        match read_unsigned(s) {
            Some(m) => {
                if m <= i64::MAX as u64 {
                    Some(m as i64)
                } else {
                    None
                }
            },
            None => None,
        }
    }
}

/// Appends the canonical form of a signed number.
fn push_signed(s: &mut String, v: i64)
    ensures
        final(s)@ == old(s)@ + signed_text(v as int),
{
    if v < 0 {
        crate::text::push_char(s, '-');
        let m: u64 = ((-(v + 1)) as u64) + 1;
        push_decimal(s, m);
        assert(final(s)@ =~= old(s)@ + signed_text(v as int));
    } else {
        push_decimal(s, v as u64);
    }
}

/// A scalar with a canonical text form and a parser that may refuse text.
pub trait TsvValue: Sized + View {
    /// The canonical text of a value.
    spec fn text_of(v: Self::V) -> Seq<char>;

    /// The value that `s` denotes, if any.
    spec fn parse_text(s: Seq<char>) -> Option<Self::V>;

    /// Writes the value in its canonical form.
    fn serialize(&self) -> (r: String)
        ensures
            r@ == Self::text_of(self@),
    ;

    /// Reads a value back; `None` where the text is not one.
    fn deserialize(s: &str) -> (r: Option<Self>)
        ensures
            match r {
                Some(v) => Self::parse_text(s@) == Some(v@),
                None => Self::parse_text(s@) is None,
            },
    ;

    /// The canonical text of a value reads back as that value.
    proof fn lemma_parse_text_of(v: Self::V)
        ensures
            Self::parse_text(Self::text_of(v)) == Some(v),
    ;
}

impl TsvValue for String {
    open spec fn text_of(v: Seq<char>) -> Seq<char> {
        v
    }

    open spec fn parse_text(s: Seq<char>) -> Option<Seq<char>> {
        Some(s)
    }

    fn serialize(&self) -> (r: String) {
        self.clone()
    }

    fn deserialize(s: &str) -> (r: Option<String>) {
        Some(s.to_owned())
    }

    proof fn lemma_parse_text_of(v: Seq<char>) {
    }
}

impl TsvValue for u64 {
    open spec fn text_of(v: u64) -> Seq<char> {
        decimal(v as nat)
    }

    open spec fn parse_text(s: Seq<char>) -> Option<u64> {
        match parse_unsigned(s) {
            Some(n) => if n <= u64::MAX {
                Some(n as u64)
            } else {
                None
            },
            None => None,
        }
    }

    fn serialize(&self) -> (r: String) {
        let mut s = String::new();
        push_decimal(&mut s, *self);
        assert(s@ =~= decimal(*self as nat));
        s
    }

    fn deserialize(s: &str) -> (r: Option<u64>) {
        read_unsigned(s)
    }

    proof fn lemma_parse_text_of(v: u64) {
        lemma_parse_decimal(v as nat);
    }
}

impl TsvValue for u32 {
    open spec fn text_of(v: u32) -> Seq<char> {
        decimal(v as nat)
    }

    open spec fn parse_text(s: Seq<char>) -> Option<u32> {
        match parse_unsigned(s) {
            Some(n) => if n <= u32::MAX {
                Some(n as u32)
            } else {
                None
            },
            None => None,
        }
    }

    fn serialize(&self) -> (r: String) {
        let mut s = String::new();
        push_decimal(&mut s, *self as u64);
        assert(s@ =~= decimal(*self as nat));
        s
    }

    fn deserialize(s: &str) -> (r: Option<u32>) {
        match read_unsigned(s) {
            Some(m) => {
                if m <= u32::MAX as u64 {
                    Some(m as u32)
                } else {
                    None
                }
            },
            None => None,
        }
    }

    proof fn lemma_parse_text_of(v: u32) {
        lemma_parse_decimal(v as nat);
    }
}

impl TsvValue for i64 {
    open spec fn text_of(v: i64) -> Seq<char> {
        signed_text(v as int)
    }

    open spec fn parse_text(s: Seq<char>) -> Option<i64> {
        match parse_signed(s) {
            Some(n) => if i64::MIN <= n <= i64::MAX {
                Some(n as i64)
            } else {
                None
            },
            None => None,
        }
    }

    fn serialize(&self) -> (r: String) {
        let mut s = String::new();
        push_signed(&mut s, *self);
        assert(s@ =~= signed_text(*self as int));
        s
    }

    fn deserialize(s: &str) -> (r: Option<i64>) {
        read_signed(s)
    }

    proof fn lemma_parse_text_of(v: i64) {
        lemma_parse_signed_text(v as int);
    }
}

impl TsvValue for i32 {
    open spec fn text_of(v: i32) -> Seq<char> {
        signed_text(v as int)
    }

    open spec fn parse_text(s: Seq<char>) -> Option<i32> {
        match parse_signed(s) {
            Some(n) => if i32::MIN <= n <= i32::MAX {
                Some(n as i32)
            } else {
                None
            },
            None => None,
        }
    }

    fn serialize(&self) -> (r: String) {
        let mut s = String::new();
        push_signed(&mut s, *self as i64);
        assert(s@ =~= signed_text(*self as int));
        s
    }

    fn deserialize(s: &str) -> (r: Option<i32>) {
        match read_signed(s) {
            Some(v) => {
                if i32::MIN as i64 <= v && v <= i32::MAX as i64 {
                    Some(v as i32)
                } else {
                    None
                }
            },
            None => None,
        }
    }

    proof fn lemma_parse_text_of(v: i32) {
        lemma_parse_signed_text(v as int);
    }
}

impl TsvValue for u8 {
    open spec fn text_of(v: u8) -> Seq<char> {
        decimal(v as nat)
    }

    open spec fn parse_text(s: Seq<char>) -> Option<u8> {
        match parse_unsigned(s) {
            Some(n) => if n <= u8::MAX {
                Some(n as u8)
            } else {
                None
            },
            None => None,
        }
    }

    fn serialize(&self) -> (r: String) {
        let mut s = String::new();
        push_decimal(&mut s, *self as u64);
        assert(s@ =~= decimal(*self as nat));
        s
    }

    fn deserialize(s: &str) -> (r: Option<u8>) {
        match read_unsigned(s) {
            Some(m) => {
                if m <= u8::MAX as u64 {
                    Some(m as u8)
                } else {
                    None
                }
            },
            None => None,
        }
    }

    proof fn lemma_parse_text_of(v: u8) {
        lemma_parse_decimal(v as nat);
    }
}

impl TsvValue for u16 {
    open spec fn text_of(v: u16) -> Seq<char> {
        decimal(v as nat)
    }

    open spec fn parse_text(s: Seq<char>) -> Option<u16> {
        match parse_unsigned(s) {
            Some(n) => if n <= u16::MAX {
                Some(n as u16)
            } else {
                None
            },
            None => None,
        }
    }

    fn serialize(&self) -> (r: String) {
        let mut s = String::new();
        push_decimal(&mut s, *self as u64);
        assert(s@ =~= decimal(*self as nat));
        s
    }

    fn deserialize(s: &str) -> (r: Option<u16>) {
        match read_unsigned(s) {
            Some(m) => {
                if m <= u16::MAX as u64 {
                    Some(m as u16)
                } else {
                    None
                }
            },
            None => None,
        }
    }

    proof fn lemma_parse_text_of(v: u16) {
        lemma_parse_decimal(v as nat);
    }
}

impl TsvValue for usize {
    open spec fn text_of(v: usize) -> Seq<char> {
        decimal(v as nat)
    }

    open spec fn parse_text(s: Seq<char>) -> Option<usize> {
        match parse_unsigned(s) {
            Some(n) => if n <= usize::MAX {
                Some(n as usize)
            } else {
                None
            },
            None => None,
        }
    }

    fn serialize(&self) -> (r: String) {
        let mut s = String::new();
        push_decimal(&mut s, *self as u64);
        assert(s@ =~= decimal(*self as nat));
        s
    }

    fn deserialize(s: &str) -> (r: Option<usize>) {
        match read_unsigned(s) {
            Some(m) => {
                if m <= usize::MAX as u64 {
                    Some(m as usize)
                } else {
                    None
                }
            },
            None => None,
        }
    }

    proof fn lemma_parse_text_of(v: usize) {
        lemma_parse_decimal(v as nat);
    }
}

impl TsvValue for i8 {
    open spec fn text_of(v: i8) -> Seq<char> {
        signed_text(v as int)
    }

    open spec fn parse_text(s: Seq<char>) -> Option<i8> {
        match parse_signed(s) {
            Some(n) => if i8::MIN <= n <= i8::MAX {
                Some(n as i8)
            } else {
                None
            },
            None => None,
        }
    }

    fn serialize(&self) -> (r: String) {
        let mut s = String::new();
        push_signed(&mut s, *self as i64);
        assert(s@ =~= signed_text(*self as int));
        s
    }

    fn deserialize(s: &str) -> (r: Option<i8>) {
        match read_signed(s) {
            Some(v) => {
                if i8::MIN as i64 <= v && v <= i8::MAX as i64 {
                    Some(v as i8)
                } else {
                    None
                }
            },
            None => None,
        }
    }

    proof fn lemma_parse_text_of(v: i8) {
        lemma_parse_signed_text(v as int);
    }
}

impl TsvValue for i16 {
    open spec fn text_of(v: i16) -> Seq<char> {
        signed_text(v as int)
    }

    open spec fn parse_text(s: Seq<char>) -> Option<i16> {
        match parse_signed(s) {
            Some(n) => if i16::MIN <= n <= i16::MAX {
                Some(n as i16)
            } else {
                None
            },
            None => None,
        }
    }

    fn serialize(&self) -> (r: String) {
        let mut s = String::new();
        push_signed(&mut s, *self as i64);
        assert(s@ =~= signed_text(*self as int));
        s
    }

    fn deserialize(s: &str) -> (r: Option<i16>) {
        match read_signed(s) {
            Some(v) => {
                if i16::MIN as i64 <= v && v <= i16::MAX as i64 {
                    Some(v as i16)
                } else {
                    None
                }
            },
            None => None,
        }
    }

    proof fn lemma_parse_text_of(v: i16) {
        lemma_parse_signed_text(v as int);
    }
}

impl TsvValue for isize {
    open spec fn text_of(v: isize) -> Seq<char> {
        signed_text(v as int)
    }

    open spec fn parse_text(s: Seq<char>) -> Option<isize> {
        match parse_signed(s) {
            Some(n) => if isize::MIN <= n <= isize::MAX {
                Some(n as isize)
            } else {
                None
            },
            None => None,
        }
    }

    fn serialize(&self) -> (r: String) {
        let mut s = String::new();
        push_signed(&mut s, *self as i64);
        assert(s@ =~= signed_text(*self as int));
        s
    }

    fn deserialize(s: &str) -> (r: Option<isize>) {
        match read_signed(s) {
            Some(v) => {
                if isize::MIN as i64 <= v && v <= isize::MAX as i64 {
                    Some(v as isize)
                } else {
                    None
                }
            },
            None => None,
        }
    }

    proof fn lemma_parse_text_of(v: isize) {
        lemma_parse_signed_text(v as int);
    }
}

impl TsvValue for char {
    open spec fn text_of(v: char) -> Seq<char> {
        seq![v]
    }

    open spec fn parse_text(s: Seq<char>) -> Option<char> {
        if s.len() == 1 {
            Some(s[0])
        } else {
            None
        }
    }

    fn serialize(&self) -> (r: String) {
        let mut s = String::new();
        crate::text::push_char(&mut s, *self);
        assert(s@ =~= seq![*self]);
        s
    }

    fn deserialize(s: &str) -> (r: Option<char>) {
        let cs = chars_of(s);
        if cs.len() == 1 {
            Some(cs[0])
        } else {
            None
        }
    }

    proof fn lemma_parse_text_of(v: char) {
    }
}

/// The text of a truth value.
pub open spec fn bool_text(b: bool) -> Seq<char> {
    if b {
        seq!['t', 'r', 'u', 'e']
    } else {
        seq!['f', 'a', 'l', 's', 'e']
    }
}

impl TsvValue for bool {
    open spec fn text_of(v: bool) -> Seq<char> {
        bool_text(v)
    }

    open spec fn parse_text(s: Seq<char>) -> Option<bool> {
        if s == bool_text(true) {
            Some(true)
        } else if s == bool_text(false) {
            Some(false)
        } else {
            None
        }
    }

    fn serialize(&self) -> (r: String) {
        let mut s = String::new();
        if *self {
            crate::text::push_char(&mut s, 't');
            crate::text::push_char(&mut s, 'r');
            crate::text::push_char(&mut s, 'u');
            crate::text::push_char(&mut s, 'e');
        } else {
            crate::text::push_char(&mut s, 'f');
            crate::text::push_char(&mut s, 'a');
            crate::text::push_char(&mut s, 'l');
            crate::text::push_char(&mut s, 's');
            crate::text::push_char(&mut s, 'e');
        }
        assert(s@ =~= bool_text(*self));
        s
    }

    fn deserialize(s: &str) -> (r: Option<bool>) {
        let cs = chars_of(s);
        if cs.len() == 4 && cs[0] == 't' && cs[1] == 'r' && cs[2] == 'u' && cs[3] == 'e' {
            assert(cs@ =~= bool_text(true));
            Some(true)
        } else if cs.len() == 5 && cs[0] == 'f' && cs[1] == 'a' && cs[2] == 'l' && cs[3] == 's'
            && cs[4] == 'e' {
            assert(cs@ =~= bool_text(false));
            Some(false)
        } else {
            assert(cs@ != bool_text(true) && cs@ != bool_text(false)) by {
                if cs@ == bool_text(true) {
                    assert(cs@[0] == 't' && cs@[1] == 'r' && cs@[2] == 'u' && cs@[3] == 'e');
                }
                if cs@ == bool_text(false) {
                    assert(cs@[0] == 'f' && cs@[1] == 'a' && cs@[2] == 'l' && cs@[3] == 's'
                        && cs@[4] == 'e');
                }
            }
            None
        }
    }

    proof fn lemma_parse_text_of(v: bool) {
        assert(bool_text(true) != bool_text(false)) by {
            assert(bool_text(true).len() != bool_text(false).len());
        }
    }
}

fn exec_digit(d: u64) -> (c: char)
    requires
        d < 10,
    ensures
        c == digit_char(d as nat),
{
    ((d as u8) + 48) as char
}

} // verus!
