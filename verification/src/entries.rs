//! The imports of a module by the numbers of their descriptors and entries.
use crate::api::{api_at, lemma_api_at};
use crate::imports::{
    by_ordinal, find_from, find_in_tables, find_next, names_kernel32, scan_table, tables_of, Find,
    Place, TableFind, DESCRIPTOR_NAME_FIELD, DESCRIPTOR_SIZE, NAME_OFFSET,
};
use crate::memory::{in_image, u32_at, word_at, Width};
use crate::names::has_name;
use crate::sites::{
    descriptor_at, descriptors_left, entry_imports, entry_offset, has_descriptor, has_entry,
    law_walk_advances, module_imports, sites, table_left, walkable, Import,
};
use vstd::prelude::*;

verus! {

/// The entries of `KERNEL32.dll` descriptors that import a redirected function by name. Each one is
/// given by the number of its descriptor and its own number in the tables of that descriptor.
pub open spec fn matching_entries(m: Seq<u8>, w: Width, d: int) -> Set<(int, int)> {
    Set::new(|e: (int, int)| exists|x: Import| module_imports(m, w, d, e.0, e.1, x))
}

/// Entry `a` comes before entry `b`: in an earlier descriptor, or in the same one under a smaller
/// number.
pub open spec fn before(a: (int, int), b: (int, int)) -> bool {
    a.0 < b.0 || a.0 == b.0 && a.1 < b.1
}

/// A walk from the descriptor at `d` on that stands at place `p` has come to entry `at`.
spec fn reached(m: Seq<u8>, w: Width, d: int, p: Place, at: (int, int)) -> bool {
    match p {
        Place::Descriptor(e) => {
            &&& e == descriptor_at(d, at.0)
            &&& at.1 == 0
            &&& 0 <= at.0
            &&& at.0 > 0 ==> has_descriptor(m, d, at.0 - 1)
        },
        Place::Table { descriptor, lookup, slots, offset } => {
            &&& descriptor == descriptor_at(d, at.0)
            &&& has_descriptor(m, d, at.0)
            &&& names_kernel32(m, u32_at(m, descriptor + DESCRIPTOR_NAME_FIELD))
            &&& tables_of(m, descriptor) == Place::Table { descriptor, lookup, slots, offset: 0 }
            &&& offset == entry_offset(w, at.1)
            &&& 0 <= at.1
            &&& at.1 > 0 ==> has_entry(m, w, lookup, at.1 - 1)
        },
        Place::End => false,
    }
}

/// No entry from `from` on, and before `to` if there is such an end, imports a redirected function.
spec fn none_between(
    m: Seq<u8>,
    w: Width,
    d: int,
    from: (int, int),
    to: Option<(int, int)>,
) -> bool {
    forall|k: int, i: int, x: Import|
        !before((k, i), from) && (to matches Some(e) ==> before((k, i), e)) ==> !(
        #[trigger] module_imports(m, w, d, k, i, x))
}

/// The first import from entry `from` on is the one of entry `e`, and the walk goes on behind it.
spec fn stops_at(
    m: Seq<u8>,
    w: Width,
    d: int,
    from: (int, int),
    e: (int, int),
    x: Import,
    resume: Place,
) -> bool {
    &&& !before(e, from)
    &&& module_imports(m, w, d, e.0, e.1, x)
    &&& reached(m, w, d, resume, (e.0, e.1 + 1))
    &&& none_between(m, w, d, from, Some(e))
}

/// The entry that a table search comes to next.
proof fn lemma_next_entry(m: Seq<u8>, w: Width, lookup: int, slots: int, i: int) -> (n: int)
    requires
        0 <= i,
        i > 0 ==> has_entry(m, w, lookup, i - 1),
    ensures
        match scan_table(m, w, lookup, slots, entry_offset(w, i)) {
            TableFind::Import { offset, api } => {
                &&& i <= n
                &&& offset == entry_offset(w, n)
                &&& entry_imports(m, w, lookup, slots, n, Import { slot: slots + offset, api })
                &&& forall|j: int, x: Import|
                    i <= j < n ==> !(#[trigger] entry_imports(m, w, lookup, slots, j, x))
            },
            TableFind::Finished => forall|j: int, x: Import|
                i <= j ==> !(#[trigger] entry_imports(m, w, lookup, slots, j, x)),
            TableFind::OutsideImage => true,
        },
    decreases m.len() - (lookup + entry_offset(w, i)),
{
    let offset = entry_offset(w, i);
    let entry = word_at(m, w, lookup + offset);
    let api = api_at(m, entry + NAME_OFFSET);
    lemma_api_at(m, entry + NAME_OFFSET);
    if !in_image(m, lookup + offset, w.size()) {
        i
    } else if entry == 0 {
        assert forall|j: int, x: Import| i <= j implies !(#[trigger] entry_imports(
            m,
            w,
            lookup,
            slots,
            j,
            x,
        )) by {
            if has_entry(m, w, lookup, j) {
                assert(word_at(m, w, lookup + entry_offset(w, i)) != 0);
            }
        }
        i
    } else {
        assert(has_entry(m, w, lookup, i));
        assert(entry_offset(w, i + 1) == offset + w.size());
        if !by_ordinal(w, entry) && api is Some {
            assert(has_name(m, entry + NAME_OFFSET, api->0.name_bytes()));
            i
        } else {
            let n = lemma_next_entry(m, w, lookup, slots, i + 1);
            assert forall|x: Import| !(#[trigger] entry_imports(m, w, lookup, slots, i, x)) by {
                if !by_ordinal(w, entry) && has_name(m, entry + NAME_OFFSET, x.api.name_bytes()) {
                    assert(api == Some(x.api));
                }
            }
            n
        }
    }
}

/// The entry that a walk comes to next in the tables of a descriptor.
proof fn lemma_next_in_tables(m: Seq<u8>, w: Width, d: int, p: Place, at: (int, int)) -> (n: int)
    requires
        p is Table,
        reached(m, w, d, p, at),
    ensures
        match find_in_tables(m, w, p) {
            Some(Find::Import { slot, api, resume }) => stops_at(
                m,
                w,
                d,
                at,
                (at.0, n),
                Import { slot, api },
                resume,
            ),
            Some(_) => true,
            None => none_between(m, w, d, at, Some((at.0 + 1, 0))),
        },
{
    if let Place::Table { descriptor, lookup, slots, offset } = p {
        let n = lemma_next_entry(m, w, lookup, slots, at.1);
        assert(entry_offset(w, n + 1) == entry_offset(w, n) + w.size());
        assert forall|k: int, i: int, x: Import|
            k == at.0 && !before((k, i), at) && #[trigger] module_imports(
                m,
                w,
                d,
                k,
                i,
                x,
            ) implies at.1 <= i && entry_imports(m, w, lookup, slots, i, x) by {}
        assert forall|i: int, x: Import| #[trigger]
            module_imports(m, w, d, at.0 + 1, i, x) implies 0 <= i by {}
        n
    } else {
        0
    }
}

/// The entry that a walk comes to next from the beginning of a descriptor on.
proof fn lemma_next_from(m: Seq<u8>, w: Width, d: int, k: int) -> (e: (int, int))
    requires
        reached(m, w, d, Place::Descriptor(descriptor_at(d, k)), (k, 0)),
    ensures
        match find_from(m, w, descriptor_at(d, k)) {
            Find::Import { slot, api, resume } => stops_at(
                m,
                w,
                d,
                (k, 0),
                e,
                Import { slot, api },
                resume,
            ),
            Find::Finished => none_between(m, w, d, (k, 0), None),
            Find::OutsideImage => true,
        },
    decreases
            if descriptor_at(d, k) <= m.len() {
                m.len() - descriptor_at(d, k)
            } else {
                0
            },
{
    let here = descriptor_at(d, k);
    let name = u32_at(m, here + DESCRIPTOR_NAME_FIELD);
    if !in_image(m, here + DESCRIPTOR_NAME_FIELD, 4) {
        (k, 0)
    } else if name == 0 {
        assert forall|j: int, i: int, x: Import| k <= j implies !(#[trigger] module_imports(
            m,
            w,
            d,
            j,
            i,
            x,
        )) by {
            if has_descriptor(m, d, j) {
                assert(u32_at(m, descriptor_at(d, k) + DESCRIPTOR_NAME_FIELD) != 0);
            }
        }
        (k, 0)
    } else {
        assert(has_descriptor(m, d, k));
        assert(descriptor_at(d, k + 1) == here + DESCRIPTOR_SIZE);
        let later = lemma_next_from(m, w, d, k + 1);
        if names_kernel32(m, name) {
            let n = lemma_next_in_tables(m, w, d, tables_of(m, here), (k, 0));
            if find_in_tables(m, w, tables_of(m, here)) is Some {
                (k, n)
            } else {
                later
            }
        } else {
            assert(none_between(m, w, d, (k, 0), Some((k + 1, 0))));
            later
        }
    }
}

/// The entry that a walk comes to next.
proof fn lemma_next(m: Seq<u8>, w: Width, d: int, p: Place, at: (int, int)) -> (e: (int, int))
    requires
        reached(m, w, d, p, at),
    ensures
        match find_next(m, w, p) {
            Find::Import { slot, api, resume } => stops_at(
                m,
                w,
                d,
                at,
                e,
                Import { slot, api },
                resume,
            ),
            Find::Finished => none_between(m, w, d, at, None),
            Find::OutsideImage => true,
        },
{
    match p {
        Place::Descriptor(_) => lemma_next_from(m, w, d, at.0),
        Place::Table { descriptor, .. } => {
            let n = lemma_next_in_tables(m, w, d, p, at);
            assert(descriptor_at(d, at.0 + 1) == descriptor + DESCRIPTOR_SIZE);
            let later = lemma_next_from(m, w, d, at.0 + 1);
            if find_in_tables(m, w, p) is Some {
                (at.0, n)
            } else {
                later
            }
        },
        Place::End => at,
    }
}

/// The entries behind the stops of a walk that has come to entry `at`.
proof fn lemma_entries(m: Seq<u8>, w: Width, d: int, p: Place, at: (int, int)) -> (entries: Seq<
    (int, int),
>)
    requires
        reached(m, w, d, p, at),
    ensures
        entries.len() == sites(m, w, p).len(),
        forall|j: int|
            0 <= j < entries.len() ==> {
                &&& !before(#[trigger] entries[j], at)
                &&& module_imports(m, w, d, entries[j].0, entries[j].1, sites(m, w, p)[j])
            },
        forall|a: int, b: int|
            0 <= a < b < entries.len() ==> before(#[trigger] entries[a], #[trigger] entries[b]),
        walkable(m, w, p) ==> forall|k: int, i: int, x: Import|
            !before((k, i), at) && #[trigger] module_imports(m, w, d, k, i, x)
                ==> entries.contains((k, i)),
    decreases descriptors_left(m.len(), p), table_left(m.len(), p),
{
    let e = lemma_next(m, w, d, p, at);
    match find_next(m, w, p) {
        Find::Import { slot, api, resume } => {
            law_walk_advances(m, w, p);
            let later = lemma_entries(m, w, d, resume, (e.0, e.1 + 1));
            let entries = seq![e] + later;
            assert forall|j: int| 0 <= j < entries.len() implies {
                &&& !before(#[trigger] entries[j], at)
                &&& module_imports(m, w, d, entries[j].0, entries[j].1, sites(m, w, p)[j])
            } by {
                if j > 0 {
                    assert(entries[j] == later[j - 1]);
                    assert(sites(m, w, p)[j] == sites(m, w, resume)[j - 1]);
                }
            }
            assert forall|a: int, b: int| 0 <= a < b < entries.len() implies before(
                #[trigger] entries[a],
                #[trigger] entries[b],
            ) by {
                assert(entries[b] == later[b - 1]);
                if a > 0 {
                    assert(entries[a] == later[a - 1]);
                }
            }
            if walkable(m, w, p) {
                assert forall|k: int, i: int, x: Import|
                    !before((k, i), at) && #[trigger] module_imports(
                        m,
                        w,
                        d,
                        k,
                        i,
                        x,
                    ) implies entries.contains((k, i)) by {
                    if (k, i) == e {
                        assert(entries[0] == e);
                    } else {
                        assert(!before((k, i), e));
                        assert(later.contains((k, i)));
                        let j = choose|j: int| 0 <= j < later.len() && later[j] == (k, i);
                        assert(entries[j + 1] == (k, i));
                    }
                }
            }
            entries
        },
        _ => Seq::empty(),
    }
}

/// The walk stops once at each entry that imports a redirected function by name from `KERNEL32.dll`,
/// in the order of the descriptors and of their entries. So on a module whose tables lie inside it,
/// there are as many stops as there are such entries. The law gives the entries behind the stops.
pub proof fn law_each_entry_is_one_stop(m: Seq<u8>, w: Width, d: int) -> (entries: Seq<(int, int)>)
    ensures
        entries.len() == sites(m, w, Place::Descriptor(d)).len(),
        forall|j: int|
            0 <= j < entries.len() ==> module_imports(
                m,
                w,
                d,
                (#[trigger] entries[j]).0,
                entries[j].1,
                sites(m, w, Place::Descriptor(d))[j],
            ),
        forall|a: int, b: int|
            0 <= a < b < entries.len() ==> before(#[trigger] entries[a], #[trigger] entries[b]),
        walkable(m, w, Place::Descriptor(d)) ==> {
            &&& entries.to_set() == matching_entries(m, w, d)
            &&& matching_entries(m, w, d).finite()
            &&& matching_entries(m, w, d).len() == sites(m, w, Place::Descriptor(d)).len()
        },
{
    let p = Place::Descriptor(d);
    assert(descriptor_at(d, 0) == d);
    let entries = lemma_entries(m, w, d, p, (0, 0));
    assert forall|a: int, b: int| 0 <= a < entries.len() && 0 <= b < entries.len() && a
        != b implies entries[a] != entries[b] by {
        if a < b {
            assert(before(entries[a], entries[b]));
        } else {
            assert(before(entries[b], entries[a]));
        }
    }
    entries.unique_seq_to_set();
    if walkable(m, w, p) {
        let all = matching_entries(m, w, d);
        assert forall|e: (int, int)| entries.to_set().contains(e) <==> #[trigger] all.contains(
            e,
        ) by {
            if entries.to_set().contains(e) {
                let j = choose|j: int| 0 <= j < entries.len() && entries[j] == e;
                assert(module_imports(m, w, d, e.0, e.1, sites(m, w, p)[j]));
            }
            if all.contains(e) {
                let x = choose|x: Import| module_imports(m, w, d, e.0, e.1, x);
                assert(module_imports(m, w, d, e.0, e.1, x));
                assert(entries.contains((e.0, e.1)));
            }
        }
        assert(entries.to_set() =~= all);
    }
    entries
}

/// Searching tables from some offset on is searching the tables that begin there.
proof fn lemma_search_from(
    m: Seq<u8>,
    w: Width,
    lookup: int,
    slots: int,
    begin: int,
    offset: int,
)
    ensures
        match scan_table(m, w, lookup + begin, slots + begin, offset) {
            TableFind::Import { offset: o, api } => scan_table(m, w, lookup, slots, begin + offset)
                == (TableFind::Import { offset: begin + o, api }),
            TableFind::Finished => scan_table(m, w, lookup, slots, begin + offset) is Finished,
            TableFind::OutsideImage => scan_table(
                m,
                w,
                lookup,
                slots,
                begin + offset,
            ) is OutsideImage,
        },
    decreases m.len() - (lookup + begin + offset),
{
    assert(lookup + begin + offset == lookup + (begin + offset));
    assert(slots + begin + offset == slots + (begin + offset));
    if in_image(m, lookup + begin + offset, w.size()) {
        lemma_search_from(m, w, lookup, slots, begin, offset + w.size());
        assert(begin + (offset + w.size()) == begin + offset + w.size());
    }
}

/// From any place in the tables of a descriptor, the walk comes to the first entry from there on that
/// imports a redirected function by name. The slot is the one that belongs to this entry, and the walk
/// goes on directly behind it. Where no such entry is left, it goes on with the next descriptor. The
/// law gives the number of the entry, counted from the place where the walk stood.
pub proof fn law_walk_goes_on_in_a_table(
    m: Seq<u8>,
    w: Width,
    descriptor: int,
    lookup: int,
    slots: int,
    offset: int,
) -> (n: int)
    ensures
        ({
            let p = Place::Table { descriptor, lookup, slots, offset };
            let l = lookup + offset;
            let s = slots + offset;
            match find_next(m, w, p) {
                Find::Import { slot, api, resume } => {
                    ||| {
                        &&& 0 <= n
                        &&& slot == s + entry_offset(w, n)
                        &&& entry_imports(m, w, l, s, n, Import { slot, api })
                        &&& resume == Place::Table {
                            descriptor,
                            lookup,
                            slots,
                            offset: offset + entry_offset(w, n + 1),
                        }
                        &&& forall|j: int, x: Import|
                            0 <= j < n ==> !(#[trigger] entry_imports(m, w, l, s, j, x))
                    }
                    ||| {
                        &&& forall|j: int, x: Import|
                            !(#[trigger] entry_imports(m, w, l, s, j, x))
                        &&& find_next(m, w, p) == find_next(m, w, Place::Descriptor(descriptor + 20))
                    }
                },
                Find::Finished => forall|j: int, x: Import|
                    !(#[trigger] entry_imports(m, w, l, s, j, x)),
                Find::OutsideImage => true,
            }
        }),
{
    let l = lookup + offset;
    let s = slots + offset;
    assert(entry_offset(w, 0) == 0);
    lemma_search_from(m, w, lookup, slots, offset, 0);
    let n = lemma_next_entry(m, w, l, s, 0);
    assert(entry_offset(w, n + 1) == entry_offset(w, n) + w.size());
    n
}

} // verus!
