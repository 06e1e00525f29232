//! Walking the import tables of a loaded module.
//!
//! The walk visits the import descriptors in order and, for each one that names `KERNEL32.dll`, the
//! entries of its lookup table. It stops at every entry that imports one of the redirected console
//! functions by name, and can be resumed behind it.
use crate::api::{api_at, find_api, ConsoleApi};
use crate::memory::{
    in_image, read_u16, read_u32, read_word, u16_at, u32_at, word_at, Width,
};
use crate::names::{
    ascii, has_name_in_any_case, is_terminated, name_is_in_any_case, terminated,
};
use vstd::prelude::*;

verus! {

/// The first two bytes of a module, `MZ`.
pub const DOS_SIGNATURE: u16 = 0x5A4D;

/// The first four bytes of the headers, `PE` and two zero bytes.
pub const PE_SIGNATURE: u32 = 0x0000_4550;

/// Where the offset of the headers is stored.
pub const HEADER_OFFSET_FIELD: u64 = 60;

/// Where the size of the loaded module is stored, counted from the headers.
pub const IMAGE_SIZE_FIELD: u64 = 80;

/// The size of an import descriptor.
pub const DESCRIPTOR_SIZE: u64 = 20;

/// Where a descriptor stores the name of the imported module.
pub const DESCRIPTOR_NAME_FIELD: u64 = 12;

/// Where a descriptor stores the offset of its address table.
pub const DESCRIPTOR_SLOTS_FIELD: u64 = 16;

/// Where an imported name begins, counted from the place that a lookup entry points to.
pub const NAME_OFFSET: u64 = 2;

/// Why the import tables of a module cannot be walked.
#[derive(Clone, Copy, PartialEq, Eq, Structural, Debug)]
pub enum HeaderError {
    InvalidDosSignature,
    InvalidPeSignature,
    NoImportDirectory,
    /// A header field lies outside the module.
    OutsideImage,
}

impl HeaderError {
    /// The message for the error.
    pub open spec fn message_chars(self) -> Seq<char> {
        match self {
            HeaderError::InvalidDosSignature => "[hooks] Invalid DOS signature"@,
            HeaderError::InvalidPeSignature => "[hooks] Invalid PE signature"@,
            HeaderError::NoImportDirectory => "[hooks] No import directory"@,
            HeaderError::OutsideImage => "[hooks] Headers lie outside the module"@,
        }
    }

    /// Gives the message for the error.
    pub fn message(self) -> (r: &'static str)
        ensures
            r@ == self.message_chars(),
    {
        match self {
            HeaderError::InvalidDosSignature => "[hooks] Invalid DOS signature",
            HeaderError::InvalidPeSignature => "[hooks] Invalid PE signature",
            HeaderError::NoImportDirectory => "[hooks] No import directory",
            HeaderError::OutsideImage => "[hooks] Headers lie outside the module",
        }
    }
}

/// The offset of the headers, which is stored as a signed number.
pub open spec fn headers_at(m: Seq<u8>) -> int {
    let v = u32_at(m, HEADER_OFFSET_FIELD as int);
    if v < 0x8000_0000 {
        v
    } else {
        v - 0x1_0000_0000
    }
}

/// Where the offset of the import descriptors is stored: the second data directory of the headers.
pub open spec fn import_field_at(m: Seq<u8>, w: Width) -> int {
    headers_at(m) + match w {
        Width::Bits32 => 128int,
        Width::Bits64 => 144,
    }
}

/// The offset of the first import descriptor, or why there is none.
pub open spec fn import_directory(m: Seq<u8>, w: Width) -> Result<int, HeaderError> {
    if !in_image(m, 0, 2) {
        Err(HeaderError::OutsideImage)
    } else if u16_at(m, 0) != DOS_SIGNATURE {
        Err(HeaderError::InvalidDosSignature)
    } else if !in_image(m, HEADER_OFFSET_FIELD as int, 4) || !in_image(m, headers_at(m), 4) {
        Err(HeaderError::OutsideImage)
    } else if u32_at(m, headers_at(m)) != PE_SIGNATURE {
        Err(HeaderError::InvalidPeSignature)
    } else if !in_image(m, import_field_at(m, w), 4) {
        Err(HeaderError::OutsideImage)
    } else if u32_at(m, import_field_at(m, w)) == 0 {
        Err(HeaderError::NoImportDirectory)
    } else {
        Ok(u32_at(m, import_field_at(m, w)))
    }
}

/// Finds the offset of the first import descriptor.
pub fn find_import_directory(image: &[u8], w: Width) -> (r: Result<u32, HeaderError>)
    ensures
        match import_directory(image@, w) {
            Ok(d) => r is Ok && r->Ok_0 == d,
            Err(e) => r == Err::<u32, HeaderError>(e),
        },
{
    match read_u16(image, 0) {
        None => {
            return Err(HeaderError::OutsideImage);
        },
        Some(signature) => {
            if signature != DOS_SIGNATURE {
                return Err(HeaderError::InvalidDosSignature);
            }
        },
    }
    let headers: u64 = match read_u32(image, HEADER_OFFSET_FIELD) {
        Some(v) => {
            if v >= 0x8000_0000 {
                return Err(HeaderError::OutsideImage);
            }
            v as u64
        },
        None => {
            return Err(HeaderError::OutsideImage);
        },
    };
    match read_u32(image, headers) {
        None => {
            return Err(HeaderError::OutsideImage);
        },
        Some(signature) => {
            if signature != PE_SIGNATURE {
                return Err(HeaderError::InvalidPeSignature);
            }
        },
    }
    let field: u64 = match w {
        Width::Bits32 => headers + 128,
        Width::Bits64 => headers + 144,
    };
    match read_u32(image, field) {
        None => Err(HeaderError::OutsideImage),
        Some(v) => if v == 0 {
            Err(HeaderError::NoImportDirectory)
        } else {
            Ok(v)
        },
    }
}

/// Where the headers end, as far as the size of the loaded module needs them, if the first signature
/// is in place.
pub open spec fn headers_end(m: Seq<u8>) -> Option<int> {
    if {
        &&& in_image(m, 0, 2)
        &&& u16_at(m, 0) == DOS_SIGNATURE
        &&& in_image(m, HEADER_OFFSET_FIELD as int, 4)
        &&& headers_at(m) >= 0
    } {
        Some(headers_at(m) + IMAGE_SIZE_FIELD + 4)
    } else {
        None
    }
}

/// Finds where the headers end, from the first bytes of a module.
pub fn find_headers_end(image: &[u8]) -> (r: Option<u32>)
    ensures
        match headers_end(image@) {
            Some(n) => r is Some && r->0 == n,
            None => r is None,
        },
{
    match read_u16(image, 0) {
        Some(signature) => {
            if signature != DOS_SIGNATURE {
                return None;
            }
        },
        None => {
            return None;
        },
    }
    match read_u32(image, HEADER_OFFSET_FIELD) {
        Some(v) => if v < 0x8000_0000 {
            Some(v + IMAGE_SIZE_FIELD as u32 + 4)
        } else {
            None
        },
        None => None,
    }
}

/// The size of the loaded module that its headers give, if both signatures are in place.
pub open spec fn image_size(m: Seq<u8>) -> Option<int> {
    if {
        &&& in_image(m, 0, 2)
        &&& u16_at(m, 0) == DOS_SIGNATURE
        &&& in_image(m, HEADER_OFFSET_FIELD as int, 4)
        &&& in_image(m, headers_at(m), 4)
        &&& u32_at(m, headers_at(m)) == PE_SIGNATURE
        &&& in_image(m, headers_at(m) + IMAGE_SIZE_FIELD, 4)
    } {
        Some(u32_at(m, headers_at(m) + IMAGE_SIZE_FIELD))
    } else {
        None
    }
}

/// Reads the size of the loaded module from its headers.
pub fn find_image_size(image: &[u8]) -> (r: Option<u32>)
    ensures
        match image_size(image@) {
            Some(n) => r is Some && r->0 == n,
            None => r is None,
        },
{
    match read_u16(image, 0) {
        Some(signature) => {
            if signature != DOS_SIGNATURE {
                return None;
            }
        },
        None => {
            return None;
        },
    }
    let headers: u64 = match read_u32(image, HEADER_OFFSET_FIELD) {
        Some(v) => {
            if v >= 0x8000_0000 {
                return None;
            }
            v as u64
        },
        None => {
            return None;
        },
    };
    match read_u32(image, headers) {
        Some(signature) => if signature == PE_SIGNATURE {
            read_u32(image, headers + IMAGE_SIZE_FIELD)
        } else {
            None
        },
        None => None,
    }
}

/// The first bytes of a module, up to the offset of its headers.
pub const FIRST_BYTES: u64 = 64;

/// The larger of `length` and `other`, if there is another.
pub open spec fn at_least(length: int, other: Option<int>) -> int {
    match other {
        Some(n) => if n > length {
            n
        } else {
            length
        },
        None => length,
    }
}

/// How many bytes of a loaded module there are to read: the first bytes, the headers, and all that
/// the headers tell of.
pub open spec fn loaded_length(m: Seq<u8>) -> int {
    at_least(at_least(FIRST_BYTES as int, headers_end(m)), image_size(m))
}

/// How many bytes of a loaded module to read next, where `known` are those that were read.
pub open spec fn length_after(known: Seq<u8>) -> int {
    if known.len() < FIRST_BYTES {
        FIRST_BYTES as int
    } else if known.len() < at_least(0, headers_end(known)) {
        at_least(0, headers_end(known))
    } else {
        at_least(known.len() as int, image_size(known))
    }
}

/// Finds how many bytes of a loaded module to read next, where `known` are those that were read.
/// There is no more to read if these are as many.
pub fn next_length(known: &[u8]) -> (r: usize)
    ensures
        r == length_after(known@),
{
    let length: usize = known.len();
    if (length as u64) < FIRST_BYTES {
        return FIRST_BYTES as usize;
    }
    if let Some(end) = find_headers_end(known) {
        if length < end as usize {
            return end as usize;
        }
    }
    match find_image_size(known) {
        Some(size) => if length < size as usize {
            size as usize
        } else {
            length
        },
        None => length,
    }
}

/// What the first bytes and the headers of a module tell does not depend on how much more of it is
/// known.
proof fn lemma_headers_known(m: Seq<u8>, n: int)
    requires
        FIRST_BYTES <= n <= m.len(),
    ensures
        headers_end(m.take(n)) == headers_end(m),
        at_least(0, headers_end(m)) <= n ==> image_size(m.take(n)) == image_size(m),
{
    assert(u16_at(m.take(n), 0) == u16_at(m, 0));
    assert(headers_at(m.take(n)) == headers_at(m));
}

/// A loaded module is read in at most three steps, wherever its headers stand. Each step reads at
/// least as much as the one before, no step reads more than there is to read, and the last one reads
/// all of it.
pub proof fn law_module_is_read_in_steps(m: Seq<u8>)
    requires
        loaded_length(m) <= m.len(),
    ensures
        ({
            let first = length_after(Seq::<u8>::empty());
            let second = length_after(m.take(first));
            let third = length_after(m.take(second));
            &&& 0 < first <= second <= third
            &&& third == loaded_length(m)
            &&& length_after(m.take(third)) == third
        }),
{
    let first = length_after(Seq::<u8>::empty());
    let second = length_after(m.take(first));
    let third = length_after(m.take(second));
    lemma_headers_known(m, first);
    lemma_headers_known(m, second);
    lemma_headers_known(m, third);
}

/// The name of the imported module at offset `at` is that of the module with the console functions.
pub open spec fn names_kernel32(m: Seq<u8>, at: int) -> bool {
    has_name_in_any_case(m, at, ascii("KERNEL32.dll"@))
}

/// Tells whether the module name at offset `at` is that of the module with the console functions.
fn is_kernel32(image: &[u8], at: u64) -> (r: bool)
    ensures
        r == names_kernel32(image@, at as int),
{
    proof {
        reveal_strlit("KERNEL32.dll");
    }
    name_is_in_any_case(image, at, "KERNEL32.dll")
}

/// The lookup entry imports by ordinal, so it points to no name.
pub open spec fn by_ordinal(w: Width, entry: int) -> bool {
    entry >= w.limit() / 2
}

/// What a lookup table holds from some entry on.
pub enum TableFind {
    /// The entry at `offset` imports the function `api` by name.
    Import { offset: int, api: ConsoleApi },
    /// The end of the table comes before any such entry.
    Finished,
    /// The table, a name that it points to, or the address slot lies outside the module.
    OutsideImage,
}

/// The first import of a redirected function in the lookup table at `lookup`, from the entry at
/// `offset` on. The address slot of an entry stands at the same offset in the table at `slots`.
pub open spec fn scan_table(
    m: Seq<u8>,
    w: Width,
    lookup: int,
    slots: int,
    offset: int,
) -> TableFind
    decreases m.len() - (lookup + offset),
{
    if !in_image(m, lookup + offset, w.size()) {
        TableFind::OutsideImage
    } else {
        let entry = word_at(m, w, lookup + offset);
        if entry == 0 {
            TableFind::Finished
        } else if by_ordinal(w, entry) {
            scan_table(m, w, lookup, slots, offset + w.size())
        } else if !terminated(m, entry + NAME_OFFSET) {
            TableFind::OutsideImage
        } else {
            match api_at(m, entry + NAME_OFFSET) {
                Some(api) => if in_image(m, slots + offset, w.size()) {
                    TableFind::Import { offset, api }
                } else {
                    TableFind::OutsideImage
                },
                None => scan_table(m, w, lookup, slots, offset + w.size()),
            }
        }
    }
}

/// Where a walk stands.
pub enum Place {
    /// At the descriptor at this offset.
    Descriptor(int),
    /// In the tables of the descriptor at `descriptor`, `offset` bytes behind their beginning.
    Table { descriptor: int, lookup: int, slots: int, offset: int },
    /// Behind the last descriptor.
    End,
}

/// What a walk comes to next.
pub enum Find {
    /// The import of `api` whose address stands at `slot`; the walk goes on from `resume`.
    Import { slot: int, api: ConsoleApi, resume: Place },
    /// The end of the descriptors.
    Finished,
    /// Something that lies outside the module.
    OutsideImage,
}

/// The tables of the descriptor at `d`, entered at their beginning. A descriptor without a lookup
/// table has its names in the address table.
pub open spec fn tables_of(m: Seq<u8>, d: int) -> Place {
    let slots = u32_at(m, d + DESCRIPTOR_SLOTS_FIELD);
    let lookup = if u32_at(m, d) != 0 {
        u32_at(m, d)
    } else {
        slots
    };
    Place::Table { descriptor: d, lookup, slots, offset: 0 }
}

/// What the tables at place `p` give, if it is not their end.
pub open spec fn find_in_tables(m: Seq<u8>, w: Width, p: Place) -> Option<Find> {
    match p {
        Place::Table { descriptor, lookup, slots, offset } => match scan_table(
            m,
            w,
            lookup,
            slots,
            offset,
        ) {
            TableFind::Import { offset: o, api } => Some(
                Find::Import {
                    slot: slots + o,
                    api,
                    resume: Place::Table { descriptor, lookup, slots, offset: o + w.size() },
                },
            ),
            TableFind::Finished => None,
            TableFind::OutsideImage => Some(Find::OutsideImage),
        },
        _ => None,
    }
}

/// What the walk comes to from the descriptor at `d` on.
pub open spec fn find_from(m: Seq<u8>, w: Width, d: int) -> Find
    decreases
            if d <= m.len() {
                m.len() - d
            } else {
                0
            },
{
    if !in_image(m, d + DESCRIPTOR_NAME_FIELD, 4) {
        Find::OutsideImage
    } else {
        let name = u32_at(m, d + DESCRIPTOR_NAME_FIELD);
        if name == 0 {
            Find::Finished
        } else if !terminated(m, name) {
            Find::OutsideImage
        } else if !names_kernel32(m, name) {
            find_from(m, w, d + DESCRIPTOR_SIZE)
        } else if !in_image(m, d, DESCRIPTOR_SIZE as int) {
            Find::OutsideImage
        } else {
            match find_in_tables(m, w, tables_of(m, d)) {
                Some(found) => found,
                None => find_from(m, w, d + DESCRIPTOR_SIZE),
            }
        }
    }
}

/// What the walk comes to from place `p` on.
pub open spec fn find_next(m: Seq<u8>, w: Width, p: Place) -> Find {
    match p {
        Place::Descriptor(d) => find_from(m, w, d),
        Place::Table { descriptor, .. } => match find_in_tables(m, w, p) {
            Some(found) => found,
            None => find_from(m, w, descriptor + DESCRIPTOR_SIZE),
        },
        Place::End => Find::Finished,
    }
}

/// Where a walk stands, as it is kept between two stops.
#[derive(Clone, Copy, Debug)]
pub enum Cursor {
    Descriptor(u64),
    Table { descriptor: u64, lookup: u32, slots: u32, offset: u64 },
    End,
}

impl View for Cursor {
    type V = Place;

    open spec fn view(&self) -> Place {
        match *self {
            Cursor::Descriptor(d) => Place::Descriptor(d as int),
            Cursor::Table { descriptor, lookup, slots, offset } => Place::Table {
                descriptor: descriptor as int,
                lookup: lookup as int,
                slots: slots as int,
                offset: offset as int,
            },
            Cursor::End => Place::End,
        }
    }
}

/// An address slot of a module, and the console function whose address stands in it.
#[derive(Clone, Copy, PartialEq, Eq, Structural, Debug)]
pub struct Site {
    pub slot: u64,
    pub api: ConsoleApi,
}

/// What a walk came to.
#[derive(Clone, Copy, PartialEq, Eq, Structural, Debug)]
pub enum Stop {
    /// An import of a redirected function.
    Import(Site),
    /// The end of the descriptors.
    Finished,
    /// Something that lies outside the module.
    OutsideImage,
}

impl Stop {
    /// The message for a walk that cannot go on.
    pub open spec fn message_chars(self) -> Option<Seq<char>> {
        match self {
            Stop::OutsideImage => Some("[hooks] Import tables lie outside the module"@),
            Stop::Import(_) | Stop::Finished => None,
        }
    }

    /// Gives the message for a walk that cannot go on.
    pub fn message(self) -> (r: Option<&'static str>)
        ensures
            match self.message_chars() {
                Some(chars) => r matches Some(text) && text@ == chars,
                None => r is None,
            },
    {
        match self {
            Stop::OutsideImage => Some("[hooks] Import tables lie outside the module"),
            Stop::Import(_) | Stop::Finished => None,
        }
    }
}

/// What a lookup table was found to hold.
enum TableStop {
    Import { offset: u64, slot: u64, api: ConsoleApi },
    Finished,
    OutsideImage,
}

/// Searches the lookup table at `lookup` from the entry at `offset` on.
fn search_table(image: &[u8], w: Width, lookup: u32, slots: u32, offset: u64) -> (r: TableStop)
    ensures
        match scan_table(image@, w, lookup as int, slots as int, offset as int) {
            TableFind::Import { offset: o, api } => {
                &&& r == (TableStop::Import { offset: o as u64, slot: (slots + o) as u64, api })
                &&& 0 <= o
                &&& lookup + o + w.size() <= image@.len()
                &&& slots + o + w.size() <= image@.len()
            },
            TableFind::Finished => r == TableStop::Finished,
            TableFind::OutsideImage => r == TableStop::OutsideImage,
        },
{
    let len: u64 = image.len() as u64;
    let size: u64 = w.bytes();
    let flag: u64 = match w {
        Width::Bits32 => 0x8000_0000,
        Width::Bits64 => 0x8000_0000_0000_0000,
    };
    let mut o: u64 = offset;
    loop
        invariant
            len == image@.len(),
            size == w.size(),
            flag == w.limit() / 2,
            scan_table(image@, w, lookup as int, slots as int, offset as int) == scan_table(
                image@,
                w,
                lookup as int,
                slots as int,
                o as int,
            ),
        decreases len - o,
    {
        let at: u64 = match (lookup as u64).checked_add(o) {
            Some(at) => at,
            None => {
                return TableStop::OutsideImage;
            },
        };
        let entry: u64 = match read_word(image, w, at) {
            Some(entry) => entry,
            None => {
                return TableStop::OutsideImage;
            },
        };
        if entry == 0 {
            return TableStop::Finished;
        }
        if entry < flag {
            if !is_terminated(image, entry + NAME_OFFSET) {
                return TableStop::OutsideImage;
            }
            match find_api(image, entry + NAME_OFFSET) {
                Some(api) => {
                    let slot: u64 = match (slots as u64).checked_add(o) {
                        Some(slot) => slot,
                        None => {
                            return TableStop::OutsideImage;
                        },
                    };
                    if len < size || slot > len - size {
                        return TableStop::OutsideImage;
                    }
                    return TableStop::Import { offset: o, slot, api };
                },
                None => {},
            }
        }
        o = o + size;
    }
}

/// Walks on from `cursor` to the next import of a redirected function, and gives what the walk came
/// to and where it goes on. Behind the last one, and where something lies outside the module, the
/// walk is at its end.
pub fn next_import(image: &[u8], w: Width, cursor: Cursor) -> (r: (Stop, Cursor))
    ensures
        match find_next(image@, w, cursor@) {
            Find::Import { slot, api, resume } => {
                &&& r.0 matches Stop::Import(site)
                &&& site.slot == slot
                &&& site.api == api
                &&& in_image(image@, slot, w.size())
                &&& r.1@ == resume
            },
            Find::Finished => r.0 == Stop::Finished && r.1@ == Place::End,
            Find::OutsideImage => r.0 == Stop::OutsideImage && r.1@ == Place::End,
        },
{
    let len: u64 = image.len() as u64;
    let mut here: Cursor = cursor;
    loop
        invariant
            len == image@.len(),
            find_next(image@, w, here@) == find_next(image@, w, cursor@),
        decreases
                match here {
                    Cursor::Descriptor(d) => if d + 16 <= image@.len() {
                        image@.len() - d
                    } else {
                        0
                    },
                    Cursor::Table { descriptor: d, .. } => if d + 36 <= image@.len() {
                        image@.len() - d
                    } else {
                        0
                    },
                    Cursor::End => 0,
                },
                match here {
                    Cursor::Descriptor(d) => if d + 16 <= image@.len() {
                        1int
                    } else {
                        0
                    },
                    Cursor::Table { descriptor: d, .. } => if d + 36 <= image@.len() {
                        0
                    } else {
                        1
                    },
                    Cursor::End => 0,
                },
    {
        match here {
            Cursor::End => {
                return (Stop::Finished, Cursor::End);
            },
            Cursor::Descriptor(d) => {
                let name_field: u64 = match d.checked_add(DESCRIPTOR_NAME_FIELD) {
                    Some(at) => at,
                    None => {
                        return (Stop::OutsideImage, Cursor::End);
                    },
                };
                let name: u32 = match read_u32(image, name_field) {
                    Some(name) => name,
                    None => {
                        return (Stop::OutsideImage, Cursor::End);
                    },
                };
                if name == 0 {
                    return (Stop::Finished, Cursor::End);
                }
                if !is_terminated(image, name as u64) {
                    return (Stop::OutsideImage, Cursor::End);
                }
                if is_kernel32(image, name as u64) {
                    let slots: u32 = match read_u32(image, d + DESCRIPTOR_SLOTS_FIELD) {
                        Some(slots) => slots,
                        None => {
                            return (Stop::OutsideImage, Cursor::End);
                        },
                    };
                    let names: u32 = match read_u32(image, d) {
                        Some(names) => names,
                        None => {
                            return (Stop::OutsideImage, Cursor::End);
                        },
                    };
                    let lookup: u32 = if names != 0 {
                        names
                    } else {
                        slots
                    };
                    here = Cursor::Table { descriptor: d, lookup, slots, offset: 0 };
                } else {
                    match d.checked_add(DESCRIPTOR_SIZE) {
                        Some(next) => {
                            here = Cursor::Descriptor(next);
                        },
                        None => {
                            assert(find_from(image@, w, d + DESCRIPTOR_SIZE) == Find::OutsideImage);
                            return (Stop::OutsideImage, Cursor::End);
                        },
                    }
                }
            },
            Cursor::Table { descriptor, lookup, slots, offset } => {
                match search_table(image, w, lookup, slots, offset) {
                    TableStop::Import { offset: o, slot, api } => {
                        let resume: Cursor = Cursor::Table {
                            descriptor,
                            lookup,
                            slots,
                            offset: o + w.bytes(),
                        };
                        return (Stop::Import(Site { slot, api }), resume);
                    },
                    TableStop::OutsideImage => {
                        return (Stop::OutsideImage, Cursor::End);
                    },
                    TableStop::Finished => match descriptor.checked_add(DESCRIPTOR_SIZE) {
                        Some(next) => {
                            here = Cursor::Descriptor(next);
                        },
                        None => {
                            return (Stop::OutsideImage, Cursor::End);
                        },
                    },
                }
            },
        }
    }
}

} // verus!
