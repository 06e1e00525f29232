//! The imports of a module as a list, and how the walk relates to it.
use crate::api::{api_at, lemma_api_at, ConsoleApi};
use crate::imports::{
    by_ordinal, find_from, find_in_tables, find_next, names_kernel32, scan_table, tables_of, Find,
    Place, TableFind, DESCRIPTOR_NAME_FIELD, DESCRIPTOR_SIZE, DESCRIPTOR_SLOTS_FIELD, NAME_OFFSET,
};
use crate::memory::{in_image, u32_at, word_at, Width};
use crate::names::{ascii, has_name, has_name_in_any_case, terminated};
use vstd::prelude::*;

verus! {

/// How many bytes of descriptors a walk at place `p` has still before it.
pub open spec fn descriptors_left(len: nat, p: Place) -> nat {
    let d = match p {
        Place::Descriptor(d) => d,
        Place::Table { descriptor, .. } => descriptor,
        Place::End => len as int,
    };
    if d <= len {
        (len - d) as nat
    } else {
        0
    }
}

/// How many bytes of the present table a walk at place `p` has still before it.
pub open spec fn table_left(len: nat, p: Place) -> nat {
    match p {
        Place::Descriptor(_) => len + 1,
        Place::Table { lookup, offset, .. } => if lookup + offset <= len {
            (len - (lookup + offset)) as nat
        } else {
            0
        },
        Place::End => 0,
    }
}

/// The numbers in a module are not negative.
proof fn lemma_numbers(m: Seq<u8>, at: int)
    ensures
        0 <= u32_at(m, at) < 0x1_0000_0000,
{
}

/// An entry that a table search stops at lies at or behind the place where the search began.
proof fn lemma_scan_bounds(m: Seq<u8>, w: Width, lookup: int, slots: int, offset: int)
    ensures
        scan_table(m, w, lookup, slots, offset) matches TableFind::Import { offset: o, .. } ==> {
            &&& offset <= o
            &&& in_image(m, lookup + o, w.size())
            &&& in_image(m, slots + o, w.size())
        },
    decreases m.len() - (lookup + offset),
{
    if in_image(m, lookup + offset, w.size()) {
        lemma_scan_bounds(m, w, lookup, slots, offset + w.size());
    }
}

/// A descriptor whose tables a walk stops in lies at or behind the descriptor where it began.
proof fn lemma_find_from_bounds(m: Seq<u8>, w: Width, d: int)
    ensures
        find_from(m, w, d) matches Find::Import { slot, resume, .. } ==> {
            &&& in_image(m, slot, w.size())
            &&& resume matches Place::Table { descriptor, lookup, offset, .. }
            &&& d <= descriptor <= m.len()
            &&& 0 <= lookup
            &&& 0 < offset
            &&& lookup + offset <= m.len()
        },
    decreases
            if d <= m.len() {
                m.len() - d
            } else {
                0
            },
{
    if in_image(m, d + DESCRIPTOR_NAME_FIELD, 4) {
        lemma_find_from_bounds(m, w, d + DESCRIPTOR_SIZE);
        lemma_numbers(m, d);
        lemma_numbers(m, d + DESCRIPTOR_SLOTS_FIELD);
        if let Place::Table { lookup, slots, offset, .. } = tables_of(m, d) {
            lemma_scan_bounds(m, w, lookup, slots, offset);
        }
    }
}

/// Every stop brings a walk closer to its end, whatever the module holds: either it leaves
/// descriptors behind, or it leaves entries of the present table behind. So a walk of a module that
/// keeps its size comes to an end, even if its bytes change from one stop to the next.
pub proof fn law_walk_advances(m: Seq<u8>, w: Width, p: Place)
    ensures
        find_next(m, w, p) matches Find::Import { slot, resume, .. } ==> {
            &&& in_image(m, slot, w.size())
            &&& {
                ||| descriptors_left(m.len(), resume) < descriptors_left(m.len(), p)
                ||| {
                    &&& descriptors_left(m.len(), resume) == descriptors_left(m.len(), p)
                    &&& table_left(m.len(), resume) < table_left(m.len(), p)
                }
            }
        },
{
    match p {
        Place::Descriptor(d) => {
            lemma_find_from_bounds(m, w, d);
        },
        Place::Table { descriptor, lookup, slots, offset } => {
            lemma_scan_bounds(m, w, lookup, slots, offset);
            lemma_find_from_bounds(m, w, descriptor + DESCRIPTOR_SIZE);
        },
        Place::End => {},
    }
}

/// Every stop of a walk is at an entry that imports the function by its own name and not by ordinal,
/// and the slot is the entry's address slot.
pub proof fn law_stop_is_an_import(m: Seq<u8>, w: Width, p: Place)
    ensures
        find_next(m, w, p) matches Find::Import { slot, api, resume } ==> {
            &&& resume matches Place::Table { lookup, slots, offset, .. }
            &&& slot == slots + (offset - w.size())
            &&& word_at(m, w, lookup + (offset - w.size())) != 0
            &&& !by_ordinal(w, word_at(m, w, lookup + (offset - w.size())))
            &&& has_name(
                m,
                word_at(m, w, lookup + (offset - w.size())) + NAME_OFFSET,
                api.name_bytes(),
            )
        },
{
    match p {
        Place::Descriptor(d) => {
            lemma_find_from_stops(m, w, d);
        },
        Place::Table { descriptor, lookup, slots, offset } => {
            lemma_scan_stops(m, w, lookup, slots, offset);
            lemma_find_from_stops(m, w, descriptor + DESCRIPTOR_SIZE);
        },
        Place::End => {},
    }
}

proof fn lemma_scan_stops(m: Seq<u8>, w: Width, lookup: int, slots: int, offset: int)
    ensures
        scan_table(m, w, lookup, slots, offset) matches TableFind::Import { offset: o, api } ==> {
            &&& word_at(m, w, lookup + o) != 0
            &&& !by_ordinal(w, word_at(m, w, lookup + o))
            &&& has_name(m, word_at(m, w, lookup + o) + NAME_OFFSET, api.name_bytes())
        },
    decreases m.len() - (lookup + offset),
{
    if in_image(m, lookup + offset, w.size()) {
        lemma_api_at(m, word_at(m, w, lookup + offset) + NAME_OFFSET);
        lemma_scan_stops(m, w, lookup, slots, offset + w.size());
        if let TableFind::Import { offset: o, api } = scan_table(m, w, lookup, slots, offset) {
            if o == offset {
                assert(api_at(m, word_at(m, w, lookup + o) + NAME_OFFSET) == Some(api));
            }
        }
    }
}

proof fn lemma_find_from_stops(m: Seq<u8>, w: Width, d: int)
    ensures
        find_from(m, w, d) matches Find::Import { slot, api, resume } ==> {
            &&& resume matches Place::Table { lookup, slots, offset, .. }
            &&& slot == slots + (offset - w.size())
            &&& word_at(m, w, lookup + (offset - w.size())) != 0
            &&& !by_ordinal(w, word_at(m, w, lookup + (offset - w.size())))
            &&& has_name(
                m,
                word_at(m, w, lookup + (offset - w.size())) + NAME_OFFSET,
                api.name_bytes(),
            )
        },
    decreases
            if d <= m.len() {
                m.len() - d
            } else {
                0
            },
{
    if in_image(m, d + DESCRIPTOR_NAME_FIELD, 4) {
        lemma_find_from_stops(m, w, d + DESCRIPTOR_SIZE);
        if let Place::Table { lookup, slots, offset, .. } = tables_of(m, d) {
            lemma_scan_stops(m, w, lookup, slots, offset);
        }
    }
}

/// An import of a redirected function and the slot of its address.
pub struct Import {
    pub slot: int,
    pub api: ConsoleApi,
}

/// The imports of redirected functions that a walk of the unchanged module `m` stops at, in order.
pub open spec fn sites(m: Seq<u8>, w: Width, p: Place) -> Seq<Import>
    decreases descriptors_left(m.len(), p), table_left(m.len(), p),
{
    match find_next(m, w, p) {
        Find::Import { slot, api, resume } => {
            proof {
                law_walk_advances(m, w, p);
            }
            seq![Import { slot, api }] + sites(m, w, resume)
        },
        _ => Seq::empty(),
    }
}

/// A walk of the unchanged module `m` reaches the end of the descriptors, and nothing that it reads
/// on the way lies outside the module.
pub open spec fn walkable(m: Seq<u8>, w: Width, p: Place) -> bool
    decreases descriptors_left(m.len(), p), table_left(m.len(), p),
{
    match find_next(m, w, p) {
        Find::Import { resume, .. } => {
            proof {
                law_walk_advances(m, w, p);
            }
            walkable(m, w, resume)
        },
        Find::Finished => true,
        Find::OutsideImage => false,
    }
}

/// The offset of entry `i` in a table of pointers.
pub open spec fn entry_offset(w: Width, i: int) -> int {
    match w {
        Width::Bits32 => 4 * i,
        Width::Bits64 => 8 * i,
    }
}

/// The module lists at least `k + 1` import descriptors from offset `d` on: none of the first
/// `k + 1` is the terminator, which has no name.
pub open spec fn has_descriptor(m: Seq<u8>, d: int, k: int) -> bool {
    0 <= k && forall|j: int|
        0 <= j <= k ==> {
            &&& in_image(m, #[trigger] descriptor_at(d, j) + DESCRIPTOR_NAME_FIELD, 4)
            &&& u32_at(m, descriptor_at(d, j) + DESCRIPTOR_NAME_FIELD) != 0
        }
}

/// The offset of descriptor `k`, where the first one stands at `d`.
pub open spec fn descriptor_at(d: int, k: int) -> int {
    d + DESCRIPTOR_SIZE * k
}

/// The lookup table at `lookup` lists at least `i + 1` entries: none of the first `i + 1` is the
/// terminator, which is zero.
pub open spec fn has_entry(m: Seq<u8>, w: Width, lookup: int, i: int) -> bool {
    0 <= i && forall|j: int|
        0 <= j <= i ==> {
            &&& in_image(m, lookup + #[trigger] entry_offset(w, j), w.size())
            &&& word_at(m, w, lookup + entry_offset(w, j)) != 0
        }
}

/// Entry `i` of the tables at `lookup` and `slots` imports the function of `x` by name, and the slot
/// of `x` is its address slot. An entry whose highest bit is set imports by number instead.
pub open spec fn entry_imports(
    m: Seq<u8>,
    w: Width,
    lookup: int,
    slots: int,
    i: int,
    x: Import,
) -> bool {
    let entry = word_at(m, w, lookup + entry_offset(w, i));
    &&& has_entry(m, w, lookup, i)
    &&& match w {
        Width::Bits32 => entry < 0x8000_0000,
        Width::Bits64 => entry < 0x8000_0000_0000_0000,
    }
    &&& has_name(m, entry + NAME_OFFSET, x.api.name_bytes())
    &&& x.slot == slots + entry_offset(w, i)
}

/// Entry `i` of descriptor `k` imports the function of `x` by name from `KERNEL32.dll`, and the slot
/// of `x` is its address slot. The entries stand in the table whose offset is in the first field of
/// the descriptor, whatever it is, and in the address table only if that field is zero; the offset of
/// the address table is in the fifth field.
pub open spec fn module_imports(m: Seq<u8>, w: Width, d: int, k: int, i: int, x: Import) -> bool {
    let names = u32_at(m, d + 20 * k);
    let slots = u32_at(m, d + 20 * k + 16);
    &&& has_descriptor(m, d, k)
    &&& has_name_in_any_case(m, u32_at(m, d + 20 * k + 12), ascii("KERNEL32.dll"@))
    &&& if names != 0 {
        entry_imports(m, w, names, slots, i, x)
    } else {
        entry_imports(m, w, slots, slots, i, x)
    }
}

/// The tables at `lookup` and `slots` hold the import `x` from `offset` on.
spec fn in_table(m: Seq<u8>, w: Width, lookup: int, slots: int, offset: int, x: Import) -> bool
    decreases m.len() - (lookup + offset),
{
    let entry = word_at(m, w, lookup + offset);
    &&& in_image(m, lookup + offset, w.size())
    &&& entry != 0
    &&& {
        ||| {
            &&& !by_ordinal(w, entry)
            &&& has_name(m, entry + NAME_OFFSET, x.api.name_bytes())
            &&& x.slot == slots + offset
        }
        ||| in_table(m, w, lookup, slots, offset + w.size(), x)
    }
}

/// The descriptors from `d` on hold the import `x`.
spec fn in_descriptors(m: Seq<u8>, w: Width, d: int, x: Import) -> bool
    decreases
            if d <= m.len() {
                m.len() - d
            } else {
                0
            },
{
    let name = u32_at(m, d + DESCRIPTOR_NAME_FIELD);
    &&& in_image(m, d + DESCRIPTOR_NAME_FIELD, 4)
    &&& name != 0
    &&& {
        ||| {
            &&& names_kernel32(m, name)
            &&& tables_of(m, d) matches Place::Table { lookup, slots, .. }
            &&& in_table(m, w, lookup, slots, 0, x)
        }
        ||| in_descriptors(m, w, d + DESCRIPTOR_SIZE, x)
    }
}

proof fn lemma_scan_and_table(
    m: Seq<u8>,
    w: Width,
    lookup: int,
    slots: int,
    offset: int,
    x: Import,
)
    ensures
        match scan_table(m, w, lookup, slots, offset) {
            TableFind::Import { offset: o, api } => {
                in_table(m, w, lookup, slots, offset, x) <==> {
                    ||| x == Import { slot: slots + o, api }
                    ||| in_table(m, w, lookup, slots, o + w.size(), x)
                }
            },
            TableFind::Finished => !in_table(m, w, lookup, slots, offset, x),
            TableFind::OutsideImage => true,
        },
    decreases m.len() - (lookup + offset),
{
    if in_image(m, lookup + offset, w.size()) {
        let entry = word_at(m, w, lookup + offset);
        lemma_api_at(m, entry + NAME_OFFSET);
        lemma_scan_and_table(m, w, lookup, slots, offset + w.size(), x);
        assert(api_at(m, entry + NAME_OFFSET) == Some(x.api) <==> has_name(
            m,
            entry + NAME_OFFSET,
            x.api.name_bytes(),
        ));
    }
}

proof fn lemma_sites_of_table(m: Seq<u8>, w: Width, p: Place, x: Import)
    requires
        p is Table,
    ensures
        p matches Place::Table { descriptor, lookup, slots, offset } ==> {
            let rest = Place::Descriptor(descriptor + DESCRIPTOR_SIZE);
            &&& sites(m, w, p).contains(x) ==> {
                ||| in_table(m, w, lookup, slots, offset, x)
                ||| sites(m, w, rest).contains(x)
            }
            &&& walkable(m, w, p) ==> {
                &&& walkable(m, w, rest)
                &&& in_table(m, w, lookup, slots, offset, x) ==> sites(m, w, p).contains(x)
                &&& sites(m, w, rest).contains(x) ==> sites(m, w, p).contains(x)
            }
        },
    decreases descriptors_left(m.len(), p), table_left(m.len(), p),
{
    if let Place::Table { descriptor, lookup, slots, offset } = p {
        lemma_scan_and_table(m, w, lookup, slots, offset, x);
        if let Some(Find::Import { slot, api, resume }) = find_in_tables(m, w, p) {
            law_walk_advances(m, w, p);
            lemma_sites_of_table(m, w, resume, x);
            lemma_first_or_later(Import { slot, api }, sites(m, w, resume), x);
        }
    }
}

proof fn lemma_first_or_later(first: Import, later: Seq<Import>, x: Import)
    ensures
        (seq![first] + later).contains(x) <==> x == first || later.contains(x),
{
    let all = seq![first] + later;
    if x == first {
        assert(all[0] == x);
    }
    if later.contains(x) {
        let j = choose|j: int| 0 <= j < later.len() && later[j] == x;
        assert(all[j + 1] == x);
    }
    if all.contains(x) && x != first {
        let j = choose|j: int| 0 <= j < all.len() && all[j] == x;
        assert(later[j - 1] == x);
    }
}

proof fn lemma_sites_of_descriptors(m: Seq<u8>, w: Width, d: int, x: Import)
    ensures
        sites(m, w, Place::Descriptor(d)).contains(x) ==> in_descriptors(m, w, d, x),
        walkable(m, w, Place::Descriptor(d)) && in_descriptors(m, w, d, x) ==> sites(
            m,
            w,
            Place::Descriptor(d),
        ).contains(x),
    decreases
            if d <= m.len() {
                m.len() - d
            } else {
                0
            },
{
    let name = u32_at(m, d + DESCRIPTOR_NAME_FIELD);
    if in_image(m, d + DESCRIPTOR_NAME_FIELD, 4) && name != 0 {
        if names_kernel32(m, name) && in_image(m, d, DESCRIPTOR_SIZE as int) && terminated(
            m,
            name,
        ) {
            assert(find_next(m, w, Place::Descriptor(d)) == find_next(m, w, tables_of(m, d)));
            lemma_sites_of_table(m, w, tables_of(m, d), x);
        }
        lemma_sites_of_descriptors(m, w, d + DESCRIPTOR_SIZE, x);
    }
}

/// Counted from the second entry of a table, its entries have numbers that are smaller by one.
proof fn lemma_later_entry(m: Seq<u8>, w: Width, lookup: int, slots: int, i: int, x: Import)
    requires
        in_image(m, lookup, w.size()),
        word_at(m, w, lookup) != 0,
        0 <= i,
    ensures
        entry_imports(m, w, lookup + w.size(), slots + w.size(), i, x) == entry_imports(
            m,
            w,
            lookup,
            slots,
            i + 1,
            x,
        ),
{
    let n = w.size();
    assert(lookup + n + entry_offset(w, i) == lookup + entry_offset(w, i + 1));
    assert(slots + n + entry_offset(w, i) == slots + entry_offset(w, i + 1));
    if has_entry(m, w, lookup + n, i) {
        assert forall|j: int| 0 <= j <= i + 1 implies {
            &&& in_image(m, lookup + #[trigger] entry_offset(w, j), n)
            &&& word_at(m, w, lookup + entry_offset(w, j)) != 0
        } by {
            if j > 0 {
                assert(lookup + n + entry_offset(w, j - 1) == lookup + entry_offset(w, j));
            }
        }
        assert(has_entry(m, w, lookup, i + 1));
    }
    if has_entry(m, w, lookup, i + 1) {
        assert forall|j: int| 0 <= j <= i implies {
            &&& in_image(m, lookup + n + #[trigger] entry_offset(w, j), n)
            &&& word_at(m, w, lookup + n + entry_offset(w, j)) != 0
        } by {
            assert(lookup + n + entry_offset(w, j) == lookup + entry_offset(w, j + 1));
        }
        assert(has_entry(m, w, lookup + n, i));
    }
}

/// The entries from `offset` on hold `x` exactly if one of them, counted from there, imports it.
proof fn lemma_table_and_entries(
    m: Seq<u8>,
    w: Width,
    lookup: int,
    slots: int,
    offset: int,
    x: Import,
)
    ensures
        in_table(m, w, lookup, slots, offset, x) <==> exists|i: int|
            #[trigger] entry_imports(m, w, lookup + offset, slots + offset, i, x),
    decreases m.len() - (lookup + offset),
{
    let l = lookup + offset;
    let s = slots + offset;
    let n = w.size();
    assert(entry_offset(w, 0) == 0);
    if in_image(m, l, n) && word_at(m, w, l) != 0 {
        lemma_table_and_entries(m, w, lookup, slots, offset + n, x);
        assert(lookup + (offset + n) == l + n);
        assert(slots + (offset + n) == s + n);
        if in_table(m, w, lookup, slots, offset, x) {
            if in_table(m, w, lookup, slots, offset + n, x) {
                let i = choose|i: int|
                    #[trigger] entry_imports(m, w, lookup + (offset + n), slots + (offset + n), i, x);
                lemma_later_entry(m, w, l, s, i, x);
                assert(entry_imports(m, w, lookup + offset, slots + offset, i + 1, x));
            } else {
                assert(has_entry(m, w, l, 0));
                assert(entry_imports(m, w, lookup + offset, slots + offset, 0, x));
            }
        }
        if exists|i: int|
            #[trigger] entry_imports(m, w, lookup + offset, slots + offset, i, x) {
            let i = choose|i: int|
                #[trigger] entry_imports(m, w, lookup + offset, slots + offset, i, x);
            if i > 0 {
                lemma_later_entry(m, w, l, s, i - 1, x);
                assert(entry_imports(m, w, lookup + (offset + n), slots + (offset + n), i - 1, x));
            }
        }
    } else {
        assert forall|i: int|
            !(#[trigger] entry_imports(m, w, lookup + offset, slots + offset, i, x)) by {
            if has_entry(m, w, l, i) {
                assert(in_image(m, l + entry_offset(w, 0), n));
            }
        }
    }
}

/// Counted from the second descriptor, the descriptors have numbers that are smaller by one.
proof fn lemma_later_descriptor(m: Seq<u8>, w: Width, d: int, k: int, i: int, x: Import)
    requires
        in_image(m, d + DESCRIPTOR_NAME_FIELD, 4),
        u32_at(m, d + DESCRIPTOR_NAME_FIELD) != 0,
        0 <= k,
    ensures
        module_imports(m, w, d + DESCRIPTOR_SIZE, k, i, x) == module_imports(m, w, d, k + 1, i, x),
{
    let next = d + DESCRIPTOR_SIZE;
    assert(descriptor_at(next, k) == descriptor_at(d, k + 1));
    if has_descriptor(m, next, k) {
        assert forall|j: int| 0 <= j <= k + 1 implies {
            &&& in_image(m, #[trigger] descriptor_at(d, j) + DESCRIPTOR_NAME_FIELD, 4)
            &&& u32_at(m, descriptor_at(d, j) + DESCRIPTOR_NAME_FIELD) != 0
        } by {
            if j > 0 {
                assert(descriptor_at(next, j - 1) == descriptor_at(d, j));
            }
        }
        assert(has_descriptor(m, d, k + 1));
    }
    if has_descriptor(m, d, k + 1) {
        assert forall|j: int| 0 <= j <= k implies {
            &&& in_image(m, #[trigger] descriptor_at(next, j) + DESCRIPTOR_NAME_FIELD, 4)
            &&& u32_at(m, descriptor_at(next, j) + DESCRIPTOR_NAME_FIELD) != 0
        } by {
            assert(descriptor_at(next, j) == descriptor_at(d, j + 1));
        }
        assert(has_descriptor(m, next, k));
    }
}

/// The descriptors from `d` on hold `x` exactly if an entry of one of them imports it.
proof fn lemma_descriptors_and_entries(m: Seq<u8>, w: Width, d: int, x: Import)
    ensures
        in_descriptors(m, w, d, x) <==> exists|k: int, i: int|
            #[trigger] module_imports(m, w, d, k, i, x),
    decreases
            if d <= m.len() {
                m.len() - d
            } else {
                0
            },
{
    let next = d + DESCRIPTOR_SIZE;
    let name = u32_at(m, d + DESCRIPTOR_NAME_FIELD);
    assert(descriptor_at(d, 0) == d);
    if in_image(m, d + DESCRIPTOR_NAME_FIELD, 4) && name != 0 {
        lemma_descriptors_and_entries(m, w, next, x);
        if let Place::Table { lookup, slots, .. } = tables_of(m, d) {
            lemma_table_and_entries(m, w, lookup, slots, 0, x);
            assert(lookup + 0 == lookup && slots + 0 == slots);
            if names_kernel32(m, name) && in_table(m, w, lookup, slots, 0, x) {
                let i = choose|i: int| #[trigger] entry_imports(m, w, lookup + 0, slots + 0, i, x);
                assert(has_descriptor(m, d, 0));
                assert(module_imports(m, w, d, 0, i, x));
            }
        }
        if in_descriptors(m, w, next, x) {
            let (k, i) = choose|k: int, i: int| #[trigger] module_imports(m, w, next, k, i, x);
            lemma_later_descriptor(m, w, d, k, i, x);
            assert(module_imports(m, w, d, k + 1, i, x));
        }
        if exists|k: int, i: int| #[trigger] module_imports(m, w, d, k, i, x) {
            let (k, i) = choose|k: int, i: int| #[trigger] module_imports(m, w, d, k, i, x);
            if k > 0 {
                lemma_later_descriptor(m, w, d, k - 1, i, x);
                assert(module_imports(m, w, next, k - 1, i, x));
            } else if let Place::Table { lookup, slots, .. } = tables_of(m, d) {
                assert(entry_imports(m, w, lookup + 0, slots + 0, i, x));
            }
        }
    } else {
        assert forall|k: int, i: int| !(#[trigger] module_imports(m, w, d, k, i, x)) by {
            if has_descriptor(m, d, k) {
                assert(in_image(m, descriptor_at(d, 0) + DESCRIPTOR_NAME_FIELD, 4));
            }
        }
    }
}

/// The walk stops only at imports of redirected functions from `KERNEL32.dll` by name. On a module
/// whose tables lie inside it, it stops at all of them.
pub proof fn law_sites_are_the_imports(m: Seq<u8>, w: Width, d: int)
    ensures
        forall|x: Import| #[trigger]
            sites(m, w, Place::Descriptor(d)).contains(x) ==> exists|k: int, i: int|
                #[trigger] module_imports(m, w, d, k, i, x),
        walkable(m, w, Place::Descriptor(d)) ==> forall|k: int, i: int, x: Import| #[trigger]
            module_imports(m, w, d, k, i, x) ==> sites(m, w, Place::Descriptor(d)).contains(x),
{
    assert forall|x: Import| #[trigger]
        sites(m, w, Place::Descriptor(d)).contains(x) implies exists|k: int, i: int|
            #[trigger] module_imports(m, w, d, k, i, x) by {
        lemma_sites_of_descriptors(m, w, d, x);
        lemma_descriptors_and_entries(m, w, d, x);
    }
    if walkable(m, w, Place::Descriptor(d)) {
        assert forall|k: int, i: int, x: Import| #[trigger]
            module_imports(m, w, d, k, i, x) implies sites(m, w, Place::Descriptor(d)).contains(
            x,
        ) by {
            lemma_sites_of_descriptors(m, w, d, x);
            lemma_descriptors_and_entries(m, w, d, x);
        }
    }
}

} // verus!
