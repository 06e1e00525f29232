//! Names stored in a module as zero-terminated strings.
use crate::memory::in_image;
use vstd::prelude::*;

verus! {

/// The characters of an ASCII string as bytes.
pub open spec fn ascii(s: Seq<char>) -> Seq<u8> {
    Seq::new(s.len(), |i: int| s[i] as u8)
}

/// Every character lies in the ASCII range and none is the terminator.
pub open spec fn is_name(s: Seq<char>) -> bool {
    forall|i: int| 0 <= i < s.len() ==> 0 < (#[trigger] s[i] as int) < 0x80
}

/// A zero byte follows at or after offset `at`.
pub open spec fn terminated(m: Seq<u8>, at: int) -> bool {
    0 <= at && exists|k: int| at <= k < m.len() && #[trigger] m[k] == 0
}

/// The zero-terminated string at offset `at` is exactly `name`.
pub open spec fn has_name(m: Seq<u8>, at: int, name: Seq<u8>) -> bool {
    &&& in_image(m, at, name.len() as int + 1)
    &&& forall|i: int| 0 <= i < name.len() ==> m[at + i] == #[trigger] name[i]
    &&& m[at + name.len()] == 0
}

/// The lower-case form of an ASCII letter; any other byte stands for itself.
pub open spec fn lower(b: u8) -> u8 {
    if 0x41 <= b <= 0x5a {
        (b + 0x20) as u8
    } else {
        b
    }
}

/// The zero-terminated string at offset `at` is `name` up to the case of its ASCII letters.
pub open spec fn has_name_in_any_case(m: Seq<u8>, at: int, name: Seq<u8>) -> bool {
    &&& in_image(m, at, name.len() as int + 1)
    &&& forall|i: int| 0 <= i < name.len() ==> lower(m[at + i]) == lower(#[trigger] name[i])
    &&& m[at + name.len()] == 0
}

/// Tells whether a zero byte follows at or after offset `at`.
pub fn is_terminated(image: &[u8], at: u64) -> (r: bool)
    ensures
        r == terminated(image@, at as int),
{
    let len: usize = image.len();
    if at >= len as u64 {
        return false;
    }
    let mut k: usize = at as usize;
    while k < len
        invariant
            len == image@.len(),
            at <= k <= len,
            forall|j: int| at <= j < k ==> image@[j] != 0,
        decreases len - k,
    {
        if image[k] == 0 {
            return true;
        }
        k = k + 1;
    }
    false
}

/// Gives the lower-case form of an ASCII letter, and any other byte unchanged.
pub fn to_lower(b: u8) -> (r: u8)
    ensures
        r == lower(b),
{
    if 0x41 <= b && b <= 0x5a {
        b + 0x20
    } else {
        b
    }
}

/// Tells whether `bytes` are the characters of `name`.
pub fn bytes_are(bytes: &[u8], name: &str) -> (r: bool)
    requires
        is_name(name@),
    ensures
        r == (bytes@ == ascii(name@)),
{
    proof {
        vstd::utf8::is_ascii_chars_encode_utf8(name@);
    }
    let wanted: &[u8] = name.as_bytes();
    assert(wanted@ =~= ascii(name@));
    let n: usize = wanted.len();
    if bytes.len() != n {
        return false;
    }
    let mut i: usize = 0;
    while i < n
        invariant
            n == bytes@.len(),
            n == wanted@.len(),
            wanted@ == ascii(name@),
            i <= n,
            forall|j: int| 0 <= j < i ==> bytes@[j] == wanted@[j],
        decreases n - i,
    {
        if bytes[i] != wanted[i] {
            return false;
        }
        i = i + 1;
    }
    assert(bytes@ =~= wanted@);
    true
}

/// Tells whether the zero-terminated string at offset `at` is exactly `name`.
pub fn name_is(image: &[u8], at: u64, name: &str) -> (r: bool)
    requires
        is_name(name@),
    ensures
        r == has_name(image@, at as int, ascii(name@)),
{
    proof {
        vstd::utf8::is_ascii_chars_encode_utf8(name@);
    }
    let len: u64 = image.len() as u64;
    let n: usize = name.len();
    if len <= n as u64 || at > len - n as u64 - 1 {
        return false;
    }
    let start: usize = at as usize;
    let text: &[u8] = &image[start..start + n];
    assert(forall|i: int| 0 <= i < n ==> text@[i] == image@[start + i]);
    assert(has_name(image@, at as int, ascii(name@)) ==> text@ =~= ascii(name@));
    bytes_are(text, name) && image[start + n] == 0
}

/// Tells whether the zero-terminated string at offset `at` is `name` up to the case of its letters.
pub fn name_is_in_any_case(image: &[u8], at: u64, name: &str) -> (r: bool)
    requires
        is_name(name@),
    ensures
        r == has_name_in_any_case(image@, at as int, ascii(name@)),
{
    proof {
        vstd::utf8::is_ascii_chars_encode_utf8(name@);
    }
    let bytes: &[u8] = name.as_bytes();
    assert(bytes@ =~= ascii(name@));
    let len: u64 = image.len() as u64;
    let n: usize = bytes.len();
    if len <= n as u64 || at > len - n as u64 - 1 {
        return false;
    }
    let start: usize = at as usize;
    let mut i: usize = 0;
    while i < n
        invariant
            n == bytes@.len(),
            bytes@ == ascii(name@),
            start == at,
            start + n < image@.len(),
            image@.len() <= usize::MAX,
            i <= n,
            forall|j: int| 0 <= j < i ==> lower(image@[start + j]) == lower(#[trigger] bytes@[j]),
        decreases n - i,
    {
        if to_lower(image[start + i]) != to_lower(bytes[i]) {
            assert(lower(image@[start + i as int]) != lower(bytes@[i as int]));
            return false;
        }
        i = i + 1;
    }
    image[start + n] == 0
}

/// A byte is the lower-case form of itself, unless it is one of the upper-case letters, which becomes
/// the letter 32 places behind it.
pub proof fn law_only_upper_case_letters_change(b: u8)
    ensures
        b < 0x41 || b > 0x5a ==> lower(b) == b,
        0x41 <= b <= 0x5a ==> lower(b) == b + 0x20,
{
}

/// Two bytes are the same up to case exactly if they are the same or the two forms of one letter.
pub proof fn law_same_up_to_case(a: u8, b: u8)
    ensures
        lower(a) == lower(b) <==> {
            ||| a == b
            ||| 0x41 <= a <= 0x5a && b == a + 0x20
            ||| 0x41 <= b <= 0x5a && a == b + 0x20
        },
{
}

/// A string ends somewhere exactly if there is a zero byte in what follows its beginning.
pub proof fn law_terminated_by_a_zero_byte(m: Seq<u8>, at: int)
    ensures
        0 <= at <= m.len() ==> (terminated(m, at) <==> m.skip(at).contains(0)),
        at < 0 || at > m.len() ==> !terminated(m, at),
{
    if 0 <= at <= m.len() {
        if terminated(m, at) {
            let k = choose|k: int| at <= k < m.len() && #[trigger] m[k] == 0;
            assert(m.skip(at)[k - at] == 0);
        }
        if m.skip(at).contains(0) {
            let k = choose|k: int| 0 <= k < m.skip(at).len() && m.skip(at)[k] == 0;
            assert(m[at + k] == 0);
        }
    }
}

/// A name stands at an offset exactly if its bytes do, with a zero byte behind them.
pub proof fn law_name_is_its_bytes(m: Seq<u8>, at: int, name: Seq<u8>)
    ensures
        has_name(m, at, name) <==> {
            &&& 0 <= at
            &&& at + name.len() < m.len()
            &&& m.subrange(at, at + name.len() + 1) == name.push(0)
        },
{
    if 0 <= at && at + name.len() < m.len() {
        let here = m.subrange(at, at + name.len() + 1);
        if has_name(m, at, name) {
            assert forall|i: int| 0 <= i < here.len() implies here[i] == name.push(0)[i] by {
                if i < name.len() {
                    assert(m[at + i] == name[i]);
                }
            }
            assert(here =~= name.push(0));
        }
        if here == name.push(0) {
            assert forall|i: int| 0 <= i < name.len() implies m[at + i] == #[trigger] name[i] by {
                assert(here[i] == name.push(0)[i]);
            }
            assert(here[name.len() as int] == 0);
        }
    }
}

/// A name stands at an offset up to case exactly if each of its bytes does, as it is or as the other
/// form of its letter, with a zero byte behind them.
pub proof fn law_name_in_any_case_is_its_letters(m: Seq<u8>, at: int, name: Seq<u8>)
    ensures
        has_name_in_any_case(m, at, name) <==> {
            &&& 0 <= at
            &&& at + name.len() < m.len()
            &&& m[at + name.len()] == 0
            &&& forall|i: int|
                0 <= i < name.len() ==> {
                    ||| m[at + i] == #[trigger] name[i]
                    ||| 0x41 <= name[i] <= 0x5a && m[at + i] == name[i] + 0x20
                    ||| 0x61 <= name[i] <= 0x7a && m[at + i] == name[i] - 0x20
                }
        },
{
    assert forall|i: int| 0 <= i < name.len() implies (lower(m[at + i]) == lower(
        #[trigger] name[i],
    ) <==> {
        ||| m[at + i] == name[i]
        ||| 0x41 <= name[i] <= 0x5a && m[at + i] == name[i] + 0x20
        ||| 0x61 <= name[i] <= 0x7a && m[at + i] == name[i] - 0x20
    }) by {}
}

/// The bytes of an ASCII string are those that it is encoded to.
pub proof fn law_ascii_is_the_encoding(s: Seq<char>)
    requires
        forall|i: int| 0 <= i < s.len() ==> '\0' <= #[trigger] s[i] <= '\u{7f}',
    ensures
        ascii(s) == vstd::utf8::encode_utf8(s),
{
    assert(vstd::utf8::is_ascii_chars(s));
    vstd::utf8::is_ascii_chars_encode_utf8(s);
    assert(ascii(s) =~= vstd::utf8::encode_utf8(s));
}

} // verus!
