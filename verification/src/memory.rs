//! Reading and writing the bytes of a loaded module.
//!
//! A module is a sequence of bytes that starts at its base address, so an offset into the sequence
//! is a relative virtual address. Numbers are little endian.
use vstd::prelude::*;

verus! {

/// The pointer width that a module was built for.
#[derive(Clone, Copy, PartialEq, Eq, Structural, Debug)]
pub enum Width {
    Bits32,
    Bits64,
}

impl Width {
    /// The number of bytes in a pointer.
    pub open spec fn size(self) -> int {
        match self {
            Width::Bits32 => 4,
            Width::Bits64 => 8,
        }
    }

    /// The number of values that a pointer can hold.
    pub open spec fn limit(self) -> int {
        match self {
            Width::Bits32 => 0x1_0000_0000,
            Width::Bits64 => 0x1_0000_0000_0000_0000,
        }
    }

    /// Gives the number of bytes in a pointer.
    pub fn bytes(self) -> (n: u64)
        ensures
            n == self.size(),
    {
        match self {
            Width::Bits32 => 4,
            Width::Bits64 => 8,
        }
    }
}

/// The `n` bytes from offset `at` on lie inside the module.
pub open spec fn in_image(m: Seq<u8>, at: int, n: int) -> bool {
    0 <= at && at + n <= m.len()
}

/// The 16-bit number at offset `at`.
pub open spec fn u16_at(m: Seq<u8>, at: int) -> int {
    m[at] + 0x100 * m[at + 1]
}

/// The 32-bit number at offset `at`.
pub open spec fn u32_at(m: Seq<u8>, at: int) -> int {
    u16_at(m, at) + 0x1_0000 * u16_at(m, at + 2)
}

/// The 64-bit number at offset `at`.
pub open spec fn u64_at(m: Seq<u8>, at: int) -> int {
    u32_at(m, at) + 0x1_0000_0000 * u32_at(m, at + 4)
}

/// The pointer-sized number at offset `at`.
pub open spec fn word_at(m: Seq<u8>, w: Width, at: int) -> int {
    match w {
        Width::Bits32 => u32_at(m, at),
        Width::Bits64 => u64_at(m, at),
    }
}

/// Byte `k` of the little-endian form of `v`, counted from the least significant one.
pub open spec fn byte_of(v: int, k: int) -> int
    decreases k,
{
    if k <= 0 {
        v % 0x100
    } else {
        byte_of(v / 0x100, k - 1)
    }
}

/// The module with the pointer-sized number `v` stored at offset `at`.
pub open spec fn with_word(m: Seq<u8>, w: Width, at: int, v: int) -> Seq<u8> {
    Seq::new(
        m.len(),
        |i: int|
            if at <= i < at + w.size() {
                byte_of(v, i - at) as u8
            } else {
                m[i]
            },
    )
}

/// A pointer-sized number reads back as it was stored, and no byte outside it changes.
pub proof fn lemma_word_round_trip(m: Seq<u8>, w: Width, at: int, v: int)
    requires
        in_image(m, at, w.size()),
        0 <= v < w.limit(),
    ensures
        with_word(m, w, at, v).len() == m.len(),
        word_at(with_word(m, w, at, v), w, at) == v,
        forall|i: int|
            0 <= i < m.len() && !(at <= i < at + w.size()) ==> #[trigger] with_word(m, w, at, v)[i]
                == m[i],
{
    reveal_with_fuel(byte_of, 9);
}

/// The little-endian number in the `n` bytes from offset `at` on.
spec fn number_at(m: Seq<u8>, at: int, n: int) -> int
    decreases n,
{
    if n <= 0 {
        0
    } else {
        m[at] + 0x100 * number_at(m, at + 1, n - 1)
    }
}

/// The bytes of a little-endian number are those that it was read from.
proof fn lemma_bytes_of_number(m: Seq<u8>, at: int, n: int, i: int)
    requires
        0 <= i < n,
    ensures
        byte_of(number_at(m, at, n), i) == m[at + i],
    decreases n,
{
    let v = number_at(m, at, n);
    assert(v % 0x100 == m[at] && v / 0x100 == number_at(m, at + 1, n - 1));
    if i > 0 {
        lemma_bytes_of_number(m, at + 1, n - 1, i - 1);
        assert(at + 1 + (i - 1) == at + i);
    }
}

/// Storing the number that stands at an offset already changes nothing.
pub proof fn lemma_same_word(m: Seq<u8>, w: Width, at: int)
    requires
        in_image(m, at, w.size()),
    ensures
        with_word(m, w, at, word_at(m, w, at)) == m,
{
    let v = word_at(m, w, at);
    assert(v == number_at(m, at, w.size())) by {
        reveal_with_fuel(number_at, 9);
    }
    assert forall|i: int| 0 <= i < m.len() implies with_word(m, w, at, v)[i] == m[i] by {
        if at <= i < at + w.size() {
            lemma_bytes_of_number(m, at, w.size(), i - at);
        }
    }
    assert(with_word(m, w, at, v) =~= m);
}

/// Reads the 16-bit number at offset `at`, if it lies inside the module.
pub fn read_u16(image: &[u8], at: u64) -> (r: Option<u16>)
    ensures
        r is Some <==> in_image(image@, at as int, 2),
        r matches Some(v) ==> v == u16_at(image@, at as int),
{
    let len: u64 = image.len() as u64;
    if len < 2 || at > len - 2 {
        return None;
    }
    let i: usize = at as usize;
    Some(image[i] as u16 + image[i + 1] as u16 * 0x100)
}

/// Reads the 32-bit number at offset `at`, if it lies inside the module.
pub fn read_u32(image: &[u8], at: u64) -> (r: Option<u32>)
    ensures
        r is Some <==> in_image(image@, at as int, 4),
        r matches Some(v) ==> v == u32_at(image@, at as int),
{
    let len: u64 = image.len() as u64;
    if len < 4 || at > len - 4 {
        return None;
    }
    match (read_u16(image, at), read_u16(image, at + 2)) {
        (Some(low), Some(high)) => Some(low as u32 + high as u32 * 0x1_0000),
        _ => None,
    }
}

/// Reads the pointer-sized number at offset `at`, if it lies inside the module.
pub fn read_word(image: &[u8], w: Width, at: u64) -> (r: Option<u64>)
    ensures
        r is Some <==> in_image(image@, at as int, w.size()),
        r matches Some(v) ==> v == word_at(image@, w, at as int),
{
    match w {
        Width::Bits32 => match read_u32(image, at) {
            Some(v) => Some(v as u64),
            None => None,
        },
        Width::Bits64 => {
            let len: u64 = image.len() as u64;
            if len < 8 || at > len - 8 {
                return None;
            }
            match (read_u32(image, at), read_u32(image, at + 4)) {
                (Some(low), Some(high)) => Some(low as u64 + high as u64 * 0x1_0000_0000),
                _ => None,
            }
        },
    }
}

/// Stores the pointer-sized number `v` at offset `at`.
pub fn write_word(image: &mut Vec<u8>, w: Width, at: u64, v: u64)
    requires
        in_image(old(image)@, at as int, w.size()),
    ensures
        final(image)@ == with_word(old(image)@, w, at as int, v as int),
{
    let len: usize = image.len();
    let start: usize = at as usize;
    let n: usize = w.bytes() as usize;
    let mut rest: u64 = v;
    let mut k: usize = 0;
    while k < n
        invariant
            k <= n,
            n == w.size(),
            start + n <= len,
            image@.len() == len,
            old(image)@.len() == len,
            forall|j: int| k <= j ==> #[trigger] byte_of(v as int, j) == byte_of(rest as int, j - k),
            forall|i: int|
                0 <= i < len ==> #[trigger] image@[i] == if start <= i < start + k {
                    byte_of(v as int, i - start) as u8
                } else {
                    old(image)@[i]
                },
        decreases n - k,
    {
        assert(byte_of(v as int, k as int) == byte_of(rest as int, 0));
        image[start + k] = (rest % 0x100) as u8;
        rest = rest / 0x100;
        k = k + 1;
    }
    assert(image@ =~= with_word(old(image)@, w, at as int, v as int));
}

/// A pointer has four bytes in a module for 32 bits and eight in one for 64 bits.
pub proof fn law_pointer_sizes()
    ensures
        Width::Bits32.size() == 4,
        Width::Bits32.limit() == 0x1_0000_0000,
        Width::Bits64.size() == 8,
        Width::Bits64.limit() == 0x1_0000_0000_0000_0000,
{
}

/// Some bytes lie inside a module exactly if each of them does.
pub proof fn law_inside_is_every_byte(m: Seq<u8>, at: int, n: int)
    requires
        n > 0,
    ensures
        in_image(m, at, n) <==> forall|i: int| 0 <= i < n ==> 0 <= #[trigger] (at + i) < m.len(),
{
    if forall|i: int| 0 <= i < n ==> 0 <= #[trigger] (at + i) < m.len() {
        assert(0 <= at + 0 < m.len());
        assert(0 <= at + (n - 1) < m.len());
    }
}

/// The numbers that are read are little endian: each byte of the module gives eight bits of the
/// number, the first one the lowest.
pub proof fn law_numbers_are_little_endian(m: Seq<u8>, at: int)
    ensures
        u16_at(m, at) % 0x100 == m[at],
        u16_at(m, at) / 0x100 == m[at + 1],
        u32_at(m, at) % 0x100 == m[at],
        u32_at(m, at) / 0x100 % 0x100 == m[at + 1],
        u32_at(m, at) / 0x1_0000 % 0x100 == m[at + 2],
        u32_at(m, at) / 0x100_0000 == m[at + 3],
{
}

/// A pointer-sized number is one of 32 bits in a module for 32 bits. In one for 64 bits its lower half
/// comes first, and its upper half behind that.
pub proof fn law_words_are_little_endian(m: Seq<u8>, at: int)
    ensures
        word_at(m, Width::Bits32, at) == u32_at(m, at),
        word_at(m, Width::Bits64, at) % 0x1_0000_0000 == u32_at(m, at),
        word_at(m, Width::Bits64, at) / 0x1_0000_0000 == u32_at(m, at + 4),
{
    assert(0 <= u32_at(m, at) < 0x1_0000_0000);
}

/// A number that is stored puts its lowest eight bits in the first byte, the next eight in the second
/// one and so on, and changes no other byte of the module.
pub proof fn law_stored_numbers_are_little_endian(m: Seq<u8>, w: Width, at: int, v: int)
    requires
        0 <= at,
        at + w.size() <= m.len(),
        0 <= v < w.limit(),
    ensures
        ({
            let stored = with_word(m, w, at, v);
            &&& stored.len() == m.len()
            &&& stored.take(at) == m.take(at)
            &&& stored.skip(at + w.size()) == m.skip(at + w.size())
            &&& stored[at] == v % 0x100
            &&& stored[at + 1] == v / 0x100 % 0x100
            &&& stored[at + 2] == v / 0x1_0000 % 0x100
            &&& stored[at + 3] == v / 0x100_0000 % 0x100
            &&& w is Bits64 ==> {
                &&& stored[at + 4] == v / 0x1_0000_0000 % 0x100
                &&& stored[at + 5] == v / 0x100_0000_0000 % 0x100
                &&& stored[at + 6] == v / 0x1_0000_0000_0000 % 0x100
                &&& stored[at + 7] == v / 0x100_0000_0000_0000 % 0x100
            }
        }),
{
    reveal_with_fuel(byte_of, 9);
    let stored = with_word(m, w, at, v);
    assert(stored.take(at) =~= m.take(at));
    assert(stored.skip(at + w.size()) =~= m.skip(at + w.size()));
}

} // verus!
