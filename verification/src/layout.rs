//! Modules whose headers and import tables lie inside them.
use crate::api::{api_at, lemma_api_at, ApiTable, ConsoleApi};
use crate::imports::{
    find_in_tables, find_next, headers_end, image_size, import_directory, loaded_length,
    scan_table, tables_of, Find, HeaderError, Place, TableFind, DESCRIPTOR_NAME_FIELD,
    DESCRIPTOR_SIZE, NAME_OFFSET,
};
use crate::install::{begin, ending_of, run, Ending};
use crate::laws::{law_every_import_is_redirected, slots_compatible};
use crate::memory::{in_image, u32_at, word_at, Width};
use crate::names::{ascii, has_name, has_name_in_any_case, terminated};
use crate::reads::separated;
use crate::sites::{
    descriptor_at, entry_imports, entry_offset, has_descriptor, has_entry,
    law_sites_are_the_imports, law_walk_advances, module_imports, sites, walkable, Import,
};
use vstd::prelude::*;

verus! {

/// The entry imports by name: its highest bit is not set.
pub open spec fn is_by_name(w: Width, entry: int) -> bool {
    match w {
        Width::Bits32 => entry < 0x8000_0000,
        Width::Bits64 => entry < 0x8000_0000_0000_0000,
    }
}

/// The lookup table at `lookup` lies inside the module: it has `n` entries and a terminator, every name
/// that an entry points to ends inside the module, and the address slot of every entry that imports a
/// redirected function does so too.
pub open spec fn table_inside(m: Seq<u8>, w: Width, lookup: int, slots: int, n: int) -> bool {
    &&& 0 <= n
    &&& 0 <= lookup
    &&& 0 <= slots
    &&& lookup + entry_offset(w, n) + w.size() <= m.len()
    &&& word_at(m, w, lookup + entry_offset(w, n)) == 0
    &&& forall|i: int|
        0 <= i < n ==> {
            let entry = word_at(m, w, lookup + #[trigger] entry_offset(w, i));
            &&& entry != 0
            &&& is_by_name(w, entry) ==> terminated(m, entry + 2)
            &&& forall|a: ConsoleApi|
                is_by_name(w, entry) && has_name(m, entry + 2, #[trigger] a.name_bytes()) ==> slots
                    + entry_offset(w, i) + w.size() <= m.len()
        }
}

/// The import tables from offset `d` on lie inside the module. There are as many descriptors as
/// `counts` has numbers, and a terminator without a name behind them. Each descriptor names a module
/// by a string that ends; one that names `KERNEL32.dll` has a lookup table with as many entries as its
/// number in `counts` says.
pub open spec fn tables_inside(m: Seq<u8>, w: Width, d: int, counts: Seq<int>) -> bool {
    &&& 0 <= d
    &&& d + 20 * counts.len() + 16 <= m.len()
    &&& u32_at(m, descriptor_at(d, counts.len() as int) + 12) == 0
    &&& forall|k: int|
        0 <= k < counts.len() ==> {
            let e = #[trigger] descriptor_at(d, k);
            let names = u32_at(m, e);
            let slots = u32_at(m, e + 16);
            &&& u32_at(m, e + 12) != 0
            &&& terminated(m, u32_at(m, e + 12))
            &&& has_name_in_any_case(m, u32_at(m, e + 12), ascii("KERNEL32.dll"@)) ==> if names
                != 0 {
                table_inside(m, w, names, slots, counts[k])
            } else {
                table_inside(m, w, slots, slots, counts[k])
            }
        }
}

/// A search of a table that lies inside the module stops at one of its entries or at its end.
proof fn lemma_scan_inside(
    m: Seq<u8>,
    w: Width,
    lookup: int,
    slots: int,
    n: int,
    i: int,
) -> (j: int)
    requires
        table_inside(m, w, lookup, slots, n),
        0 <= i <= n,
    ensures
        match scan_table(m, w, lookup, slots, entry_offset(w, i)) {
            TableFind::Import { offset, .. } => i <= j < n && offset == entry_offset(w, j),
            TableFind::Finished => true,
            TableFind::OutsideImage => false,
        },
    decreases n - i,
{
    let at = lookup + entry_offset(w, i);
    let entry = word_at(m, w, at);
    assert(in_image(m, at, w.size()));
    if i == n {
        i
    } else {
        assert(entry != 0);
        assert(entry_offset(w, i + 1) == entry_offset(w, i) + w.size());
        lemma_api_at(m, entry + NAME_OFFSET);
        if is_by_name(w, entry) && api_at(m, entry + NAME_OFFSET) is Some {
            let a = api_at(m, entry + NAME_OFFSET)->0;
            assert(has_name(m, entry + 2, a.name_bytes()));
            i
        } else {
            lemma_scan_inside(m, w, lookup, slots, n, i + 1)
        }
    }
}

/// What a walk comes to decides whether it reaches the end.
proof fn lemma_same_next_same_end(m: Seq<u8>, w: Width, p: Place, q: Place)
    requires
        find_next(m, w, p) == find_next(m, w, q),
    ensures
        walkable(m, w, p) == walkable(m, w, q),
{
}

/// A walk in a table that lies inside the module goes on to the next descriptor.
proof fn lemma_through_table(m: Seq<u8>, w: Width, p: Place, n: int, i: int)
    requires
        p matches Place::Table { lookup, slots, offset, .. } && table_inside(
            m,
            w,
            lookup,
            slots,
            n,
        ) && 0 <= i <= n && offset == entry_offset(w, i),
        p matches Place::Table { descriptor, .. } && walkable(
            m,
            w,
            Place::Descriptor(descriptor + DESCRIPTOR_SIZE),
        ),
    ensures
        walkable(m, w, p),
    decreases n - i,
{
    if let Place::Table { descriptor, lookup, slots, offset } = p {
        let j = lemma_scan_inside(m, w, lookup, slots, n, i);
        match find_in_tables(m, w, p) {
            Some(Find::Import { resume, .. }) => {
                law_walk_advances(m, w, p);
                assert(entry_offset(w, j + 1) == entry_offset(w, j) + w.size());
                lemma_through_table(m, w, resume, n, j + 1);
            },
            _ => {
                lemma_same_next_same_end(
                    m,
                    w,
                    p,
                    Place::Descriptor(descriptor + DESCRIPTOR_SIZE),
                );
            },
        }
    }
}

proof fn lemma_through_descriptors(m: Seq<u8>, w: Width, d: int, counts: Seq<int>, k: int)
    requires
        tables_inside(m, w, d, counts),
        0 <= k <= counts.len(),
    ensures
        walkable(m, w, Place::Descriptor(descriptor_at(d, k))),
    decreases counts.len() - k,
{
    let e = descriptor_at(d, k);
    let here = Place::Descriptor(e);
    if k < counts.len() {
        lemma_through_descriptors(m, w, d, counts, k + 1);
        let next = Place::Descriptor(e + DESCRIPTOR_SIZE);
        assert(descriptor_at(d, k + 1) == e + DESCRIPTOR_SIZE);
        assert(u32_at(m, e + 12) != 0);
        if has_name_in_any_case(m, u32_at(m, e + 12), ascii("KERNEL32.dll"@)) {
            assert(entry_offset(w, 0) == 0);
            lemma_through_table(m, w, tables_of(m, e), counts[k], 0);
            lemma_same_next_same_end(m, w, here, tables_of(m, e));
        } else {
            lemma_same_next_same_end(m, w, here, next);
        }
    }
}

/// A walk of import tables that lie inside the module reaches their end.
pub proof fn law_tables_inside_are_walked(m: Seq<u8>, w: Width, d: int, counts: Seq<int>)
    requires
        tables_inside(m, w, d, counts),
    ensures
        walkable(m, w, Place::Descriptor(d)),
{
    lemma_through_descriptors(m, w, d, counts, 0);
    assert(descriptor_at(d, 0) == d);
}

/// A redirected function that a descriptor for `KERNEL32.dll` imports by name is found, wherever the
/// tables stand. Its name is read from the table that the first field of the descriptor gives, whatever
/// stands in the address table, and from the address table if that field is zero. Its slot is in the
/// address table, at the same number as the entry.
pub proof fn law_imports_are_found(
    m: Seq<u8>,
    w: Width,
    d: int,
    counts: Seq<int>,
    k: int,
    i: int,
    a: ConsoleApi,
)
    requires
        tables_inside(m, w, d, counts),
        0 <= k < counts.len(),
        has_name_in_any_case(m, u32_at(m, d + 20 * k + 12), ascii("KERNEL32.dll"@)),
        0 <= i < counts[k],
        ({
            let names = u32_at(m, d + 20 * k);
            let slots = u32_at(m, d + 20 * k + 16);
            let entry = if names != 0 {
                word_at(m, w, names + w.size() * i)
            } else {
                word_at(m, w, slots + w.size() * i)
            };
            is_by_name(w, entry) && has_name(m, entry + 2, a.name_bytes())
        }),
    ensures
        sites(m, w, Place::Descriptor(d)).contains(
            Import { slot: u32_at(m, d + 20 * k + 16) + w.size() * i, api: a },
        ),
{
    let e = descriptor_at(d, k);
    let names = u32_at(m, e);
    let slots = u32_at(m, e + 16);
    let lookup = if names != 0 {
        names
    } else {
        slots
    };
    let x = Import { slot: slots + w.size() * i, api: a };
    assert(entry_offset(w, i) == w.size() * i) by {
        assert(w.size() == 4 || w.size() == 8);
    }
    assert(e == d + 20 * k);
    assert forall|j: int| 0 <= j <= k implies {
        &&& in_image(m, #[trigger] descriptor_at(d, j) + DESCRIPTOR_NAME_FIELD, 4)
        &&& u32_at(m, descriptor_at(d, j) + DESCRIPTOR_NAME_FIELD) != 0
    } by {}
    assert(has_descriptor(m, d, k));
    assert(table_inside(m, w, lookup, slots, counts[k]));
    assert forall|j: int| 0 <= j <= i implies {
        &&& in_image(m, lookup + #[trigger] entry_offset(w, j), w.size())
        &&& word_at(m, w, lookup + entry_offset(w, j)) != 0
    } by {}
    assert(has_entry(m, w, lookup, i));
    assert(entry_imports(m, w, lookup, slots, i, x));
    assert(module_imports(m, w, d, k, i, x));
    law_tables_inside_are_walked(m, w, d, counts);
    law_sites_are_the_imports(m, w, d);
}

/// After an installation to which every slot was granted, the slot of each such function holds the
/// address of its hook, and the installation has come to its end. No slot is read again after it was
/// redirected, and no slot belongs to two different imports.
pub proof fn law_found_imports_are_redirected(
    m: Seq<u8>,
    w: Width,
    hooks: ApiTable,
    d: int,
    counts: Seq<int>,
    answers: Seq<bool>,
    k: int,
    i: int,
    a: ConsoleApi,
)
    requires
        tables_inside(m, w, d, counts),
        separated(m, w, Place::Descriptor(d)),
        slots_compatible(w, sites(m, w, Place::Descriptor(d))),
        forall|b: ConsoleApi| #[trigger] hooks.of(b) < w.limit(),
        answers.len() >= sites(m, w, Place::Descriptor(d)).len(),
        forall|j: int| 0 <= j < answers.len() ==> #[trigger] answers[j],
        0 <= k < counts.len(),
        has_name_in_any_case(m, u32_at(m, d + 20 * k + 12), ascii("KERNEL32.dll"@)),
        0 <= i < counts[k],
        ({
            let names = u32_at(m, d + 20 * k);
            let slots = u32_at(m, d + 20 * k + 16);
            let entry = if names != 0 {
                word_at(m, w, names + w.size() * i)
            } else {
                word_at(m, w, slots + w.size() * i)
            };
            is_by_name(w, entry) && has_name(m, entry + 2, a.name_bytes())
        }),
    ensures
        ({
            let q = run(begin(m, d), w, hooks, answers);
            &&& word_at(q.image, w, u32_at(m, d + 20 * k + 16) + w.size() * i) == hooks.of(a)
            &&& ending_of(q, w) == Ending::Finished
        }),
{
    let x = Import { slot: u32_at(m, d + 20 * k + 16) + w.size() * i, api: a };
    law_tables_inside_are_walked(m, w, d, counts);
    law_imports_are_found(m, w, d, counts, k, i, a);
    law_sites_are_the_imports(m, w, d);
    law_every_import_is_redirected(m, w, hooks, d, answers);
    assert(sites(m, w, Place::Descriptor(d)).contains(x));
    let (j, n) = choose|j: int, n: int| #[trigger] module_imports(m, w, d, j, n, x);
    assert(module_imports(m, w, d, j, n, x));
}

/// The import descriptors of a module are found exactly if its headers are in order: it begins with
/// `MZ`, the number at offset 60 is where `PE` and two zero bytes stand, and the number in the second
/// data directory, 128 bytes behind those in a module for 32 bits and 144 in one for 64 bits, is not
/// zero. That number is where the descriptors stand.
pub proof fn law_descriptors_are_found(m: Seq<u8>, w: Width, d: int)
    ensures
        import_directory(m, w) == Ok::<int, HeaderError>(d) <==> {
            let h = u32_at(m, 60);
            let field = h + if w is Bits32 {
                128int
            } else {
                144
            };
            &&& m.len() >= 64
            &&& m[0] == 0x4d && m[1] == 0x5a
            &&& h < 0x8000_0000
            &&& field + 4 <= m.len()
            &&& m[h] == 0x50 && m[h + 1] == 0x45 && m[h + 2] == 0 && m[h + 3] == 0
            &&& u32_at(m, field) == d
            &&& d != 0
        },
{
}

/// A module is rejected for the first of its headers that is not in order.
pub proof fn law_rejections_have_their_reasons(m: Seq<u8>, w: Width)
    ensures
        ({
            let h = u32_at(m, 60);
            let field = h + if w is Bits32 {
                128int
            } else {
                144
            };
            let r = import_directory(m, w);
            &&& m.len() >= 2 && (m[0] != 0x4d || m[1] != 0x5a)
                <==> r == Err::<int, HeaderError>(HeaderError::InvalidDosSignature)
            &&& r == Err::<int, HeaderError>(HeaderError::InvalidPeSignature) <==> {
                &&& m.len() >= 64
                &&& m[0] == 0x4d && m[1] == 0x5a
                &&& h < 0x8000_0000
                &&& h + 4 <= m.len()
                &&& !(m[h] == 0x50 && m[h + 1] == 0x45 && m[h + 2] == 0 && m[h + 3] == 0)
            }
            &&& r == Err::<int, HeaderError>(HeaderError::NoImportDirectory) <==> {
                &&& m.len() >= 64
                &&& m[0] == 0x4d && m[1] == 0x5a
                &&& h < 0x8000_0000
                &&& field + 4 <= m.len()
                &&& m[h] == 0x50 && m[h + 1] == 0x45 && m[h + 2] == 0 && m[h + 3] == 0
                &&& u32_at(m, field) == 0
            }
        }),
{
}

/// Without `MZ` at the beginning of a module nothing but its first bytes is read, and without `PE` in
/// its headers nothing behind them.
pub proof fn law_no_more_is_read_than_the_headers_allow(m: Seq<u8>)
    requires
        m.len() >= 64,
    ensures
        ({
            let h = u32_at(m, 60);
            &&& m[0] != 0x4d || m[1] != 0x5a || h >= 0x8000_0000 ==> loaded_length(m) == 64
            &&& m[0] == 0x4d && m[1] == 0x5a && h < 0x8000_0000 && (h + 84 > m.len() || !(m[h]
                == 0x50 && m[h + 1] == 0x45 && m[h + 2] == 0 && m[h + 3] == 0)) ==> loaded_length(
                m,
            ) == if h + 84 > 64 {
                h + 84
            } else {
                64
            }
        }),
{
}

/// The size of a loaded module stands 80 bytes behind its `PE` headers, wherever these are, and all of
/// the module is read: as many bytes as that size says, and the headers at least.
pub proof fn law_size_of_a_loaded_module(m: Seq<u8>)
    requires
        m.len() >= 64,
        m[0] == 0x4d && m[1] == 0x5a,
        u32_at(m, 60) < 0x8000_0000,
    ensures
        ({
            let h = u32_at(m, 60);
            &&& headers_end(m) == Some(h + 84)
            &&& loaded_length(m) >= h + 84
            &&& loaded_length(m) >= 64
            &&& h + 84 <= m.len() && m[h] == 0x50 && m[h + 1] == 0x45 && m[h + 2] == 0 && m[h + 3]
                == 0 ==> {
                &&& image_size(m) == Some(u32_at(m, h + 80))
                &&& loaded_length(m) >= u32_at(m, h + 80)
                &&& u32_at(m, h + 80) >= h + 84 && u32_at(m, h + 80) >= 64 ==> loaded_length(m)
                    == u32_at(m, h + 80)
            }
        }),
{
}

} // verus!
