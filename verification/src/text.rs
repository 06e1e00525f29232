//! Numbers as text.
use vstd::prelude::*;
use vstd::string::{StrSliceExecFns, StringExecFns};

verus! {

/// The character for one digit; digits from ten on are lower-case letters.
pub open spec fn digit_char(d: int) -> char {
    if d < 10 {
        (0x30 + d) as char
    } else {
        (0x61 + d - 10) as char
    }
}

/// The digits of `v` to the given base, the most significant one first and without leading zeros.
pub open spec fn numeral(v: nat, base: nat) -> Seq<char>
    decreases v,
{
    if v < base || base < 2 {
        seq![digit_char(v as int)]
    } else {
        proof {
            lemma_quotient_is_less(v as int, base as int);
        }
        numeral(v / base, base).push(digit_char((v % base) as int))
    }
}

/// `s` with as many zeros before it as bring it to `n` characters.
pub open spec fn zero_padded(s: Seq<char>, n: nat) -> Seq<char>
    decreases n - s.len(),
{
    if s.len() >= n {
        s
    } else {
        zero_padded(seq!['0'] + s, n)
    }
}

/// Dividing by a base makes a number smaller.
pub proof fn lemma_quotient_is_less(v: int, base: int)
    by (nonlinear_arith)
    requires
        base >= 2,
        v >= base,
    ensures
        0 <= v / base < v,
        0 <= v % base < base,
{
}

/// Gives the text of one digit.
fn digit(d: u64) -> (r: &'static str)
    requires
        d < 16,
    ensures
        r@ == seq![digit_char(d as int)],
{
    proof {
        reveal_strlit("0");
        reveal_strlit("1");
        reveal_strlit("2");
        reveal_strlit("3");
        reveal_strlit("4");
        reveal_strlit("5");
        reveal_strlit("6");
        reveal_strlit("7");
        reveal_strlit("8");
        reveal_strlit("9");
        reveal_strlit("a");
        reveal_strlit("b");
        reveal_strlit("c");
        reveal_strlit("d");
        reveal_strlit("e");
        reveal_strlit("f");
    }
    match d {
        0 => "0",
        1 => "1",
        2 => "2",
        3 => "3",
        4 => "4",
        5 => "5",
        6 => "6",
        7 => "7",
        8 => "8",
        9 => "9",
        10 => "a",
        11 => "b",
        12 => "c",
        13 => "d",
        14 => "e",
        _ => "f",
    }
}

/// Gives the digits of `v` to the given base.
fn digits(v: u64, base: u64) -> (r: String)
    requires
        2 <= base <= 16,
    ensures
        r@ == numeral(v as nat, base as nat),
    decreases v,
{
    if v < base {
        String::from_str(digit(v))
    } else {
        proof {
            lemma_quotient_is_less(v as int, base as int);
        }
        let mut r: String = digits(v / base, base);
        r.append(digit(v % base));
        assert(r@ =~= numeral(v as nat, base as nat));
        r
    }
}

/// Gives the decimal digits of `v`.
pub fn decimal(v: u64) -> (r: String)
    ensures
        r@ == numeral(v as nat, 10),
{
    digits(v, 10)
}

/// Gives the hexadecimal digits of `v`.
pub fn hex(v: u64) -> (r: String)
    ensures
        r@ == numeral(v as nat, 16),
{
    digits(v, 16)
}

/// Gives the hexadecimal digits of `v`, at least eight of them.
pub fn hex8(v: u32) -> (r: String)
    ensures
        r@ == zero_padded(numeral(v as nat, 16), 8),
{
    let mut r: String = digits(v as u64, 16);
    while r.as_str().unicode_len() < 8
        invariant
            zero_padded(r@, 8) == zero_padded(numeral(v as nat, 16), 8),
        decreases 8 - r@.len(),
    {
        proof {
            reveal_strlit("0");
            assert("0"@ =~= seq!['0']);
        }
        r = String::from_str("0").concat(r.as_str());
    }
    r
}

/// The value of a digit; a character that is no digit has the value 16.
pub open spec fn digit_value(c: char) -> int {
    if '0' <= c <= '9' {
        c as int - '0' as int
    } else if 'a' <= c <= 'f' {
        c as int - 'a' as int + 10
    } else {
        16
    }
}

/// The value of some digits to the given base, the most significant one first.
pub open spec fn value_of(s: Seq<char>, base: int) -> int
    decreases s.len(),
{
    if s.len() == 0 {
        0
    } else {
        value_of(s.drop_last(), base) * base + digit_value(s.last())
    }
}

/// The text is made of digits to the given base, and `v` is their value.
pub open spec fn denotes(s: Seq<char>, v: int, base: int) -> bool {
    &&& s.len() > 0
    &&& forall|i: int| 0 <= i < s.len() ==> digit_value(#[trigger] s[i]) < base
    &&& value_of(s, base) == v
}

/// A number as text reads back as the number. It has no leading zero, unless it is zero itself.
pub proof fn law_numeral_reads_back(v: nat, base: nat)
    requires
        2 <= base <= 16,
    ensures
        denotes(numeral(v, base), v as int, base as int),
        v > 0 ==> numeral(v, base)[0] != '0',
        v == 0 ==> numeral(v, base) == seq!['0'],
    decreases v,
{
    let s = numeral(v, base);
    if v < base {
        assert(s.drop_last() =~= Seq::empty());
        assert(value_of(Seq::<char>::empty(), base as int) == 0);
        assert(0 * base == 0) by (nonlinear_arith);
    } else {
        lemma_quotient_is_less(v as int, base as int);
        law_numeral_reads_back(v / base, base);
        let before = numeral(v / base, base);
        assert(s.drop_last() =~= before);
        assert(v / base > 0) by (nonlinear_arith)
            requires
                v >= base,
                base >= 2,
        ;
        assert((v / base) * base + v % base == v) by (nonlinear_arith)
            requires
                base >= 2,
        ;
        assert forall|i: int| 0 <= i < s.len() implies digit_value(#[trigger] s[i]) < base by {
            if i < before.len() {
                assert(s[i] == before[i]);
            }
        }
        assert(s[0] == before[0]);
    }
}

/// A text that is brought to a length keeps its characters at the end, has only zeros before them, and
/// is no longer than it has to be.
pub proof fn law_padding_is_zeros(s: Seq<char>, n: nat)
    ensures
        zero_padded(s, n).len() == if s.len() >= n {
            s.len()
        } else {
            n
        },
        zero_padded(s, n).skip(zero_padded(s, n).len() - s.len()) == s,
        forall|i: int|
            0 <= i < zero_padded(s, n).len() - s.len() ==> #[trigger] zero_padded(s, n)[i] == '0',
    decreases n - s.len(),
{
    if s.len() >= n {
        assert(s.skip(0) =~= s);
    } else {
        let longer = seq!['0'] + s;
        let padded = zero_padded(s, n);
        law_padding_is_zeros(longer, n);
        let k = padded.len() - longer.len();
        assert(padded.skip(k) == longer);
        assert(padded.skip(k + 1) =~= longer.skip(1));
        assert(longer.skip(1) =~= s);
        assert(padded[k] == padded.skip(k)[0]);
    }
}

/// Zeros before some digits do not change their value.
proof fn lemma_leading_zero(s: Seq<char>, base: int)
    ensures
        value_of(seq!['0'] + s, base) == value_of(s, base),
    decreases s.len(),
{
    let longer = seq!['0'] + s;
    if s.len() == 0 {
        assert(longer.drop_last() =~= Seq::empty());
        assert(value_of(Seq::<char>::empty(), base) == 0);
        assert(0 * base == 0) by (nonlinear_arith);
    } else {
        assert(longer.drop_last() =~= seq!['0'] + s.drop_last());
        lemma_leading_zero(s.drop_last(), base);
    }
}

/// A number that is brought to a length by zeros still reads back as the number.
pub proof fn law_padded_numeral_reads_back(v: nat, base: nat, n: nat)
    requires
        2 <= base <= 16,
    ensures
        denotes(zero_padded(numeral(v, base), n), v as int, base as int),
        zero_padded(numeral(v, base), n).len() >= n,
{
    law_numeral_reads_back(v, base);
    lemma_padding_keeps_value(numeral(v, base), v as int, base as int, n);
}

proof fn lemma_padding_keeps_value(s: Seq<char>, v: int, base: int, n: nat)
    requires
        denotes(s, v, base),
        base >= 2,
    ensures
        denotes(zero_padded(s, n), v, base),
        zero_padded(s, n).len() >= n,
    decreases n - s.len(),
{
    if s.len() < n {
        let longer = seq!['0'] + s;
        lemma_leading_zero(s, base);
        assert forall|i: int| 0 <= i < longer.len() implies digit_value(#[trigger] longer[i]) < base by {
            if i > 0 {
                assert(longer[i] == s[i - 1]);
            }
        }
        lemma_padding_keeps_value(longer, v, base, n);
    }
}

} // verus!
