//! What a walk reads, and when redirecting a slot does not disturb it.
use crate::api::{api_at, lemma_api_at, lemma_names, ConsoleApi};
use crate::imports::{
    by_ordinal, find_from, find_next, names_kernel32, scan_table, tables_of, Find,
    Place, TableFind, DESCRIPTOR_NAME_FIELD, DESCRIPTOR_SIZE, DESCRIPTOR_SLOTS_FIELD, NAME_OFFSET,
};
use crate::memory::{in_image, u32_at, word_at, Width};
use crate::names::{ascii, has_name, has_name_in_any_case, is_name, lower, terminated};
use crate::sites::{descriptors_left, law_walk_advances, sites, table_left, walkable};
use vstd::prelude::*;

verus! {

/// Reading the zero-terminated string at offset `at` reads byte `x`.
pub open spec fn name_reads(m: Seq<u8>, at: int, x: int) -> bool {
    at <= x < m.len() && forall|j: int| at <= j < x ==> #[trigger] m[j] != 0
}

/// Walking the lookup table at `lookup` from `offset` to its end reads byte `x`.
pub open spec fn table_reads(m: Seq<u8>, w: Width, lookup: int, offset: int, x: int) -> bool
    decreases m.len() - (lookup + offset),
{
    let entry = word_at(m, w, lookup + offset);
    &&& in_image(m, lookup + offset, w.size())
    &&& {
        ||| lookup + offset <= x < lookup + offset + w.size()
        ||| {
            &&& entry != 0
            &&& {
                ||| !by_ordinal(w, entry) && name_reads(m, entry + NAME_OFFSET, x)
                ||| table_reads(m, w, lookup, offset + w.size(), x)
            }
        }
    }
}

/// Walking the descriptors from `d` to their end, with the tables of those that name
/// `KERNEL32.dll`, reads byte `x` for something else than the name of a module.
pub open spec fn fields_read(m: Seq<u8>, w: Width, d: int, x: int) -> bool
    decreases
            if d <= m.len() {
                m.len() - d
            } else {
                0
            },
{
    let name = u32_at(m, d + DESCRIPTOR_NAME_FIELD);
    &&& in_image(m, d + DESCRIPTOR_NAME_FIELD, 4)
    &&& {
        ||| d + DESCRIPTOR_NAME_FIELD <= x < d + DESCRIPTOR_NAME_FIELD + 4
        ||| {
            &&& name != 0
            &&& {
                ||| names_kernel32(m, name) && d <= x < d + 4
                ||| {
                    &&& names_kernel32(m, name)
                    &&& d + DESCRIPTOR_SLOTS_FIELD <= x < d + DESCRIPTOR_SLOTS_FIELD + 4
                }
                ||| {
                    &&& names_kernel32(m, name)
                    &&& in_image(m, d, DESCRIPTOR_SIZE as int)
                    &&& tables_of(m, d) matches Place::Table { lookup, .. }
                    &&& table_reads(m, w, lookup, 0, x)
                }
                ||| fields_read(m, w, d + DESCRIPTOR_SIZE, x)
            }
        }
    }
}

/// Walking the descriptors from `d` to their end reads byte `x` for the name of a module.
pub open spec fn module_names_read(m: Seq<u8>, d: int, x: int) -> bool
    decreases
            if d <= m.len() {
                m.len() - d
            } else {
                0
            },
{
    let name = u32_at(m, d + DESCRIPTOR_NAME_FIELD);
    &&& in_image(m, d + DESCRIPTOR_NAME_FIELD, 4)
    &&& name != 0
    &&& {
        ||| name_reads(m, name, x)
        ||| module_names_read(m, d + DESCRIPTOR_SIZE, x)
    }
}

/// Walking from place `p` to the end reads byte `x` for something else than the name of a module.
pub open spec fn walk_reads_field(m: Seq<u8>, w: Width, p: Place, x: int) -> bool {
    match p {
        Place::Descriptor(d) => fields_read(m, w, d, x),
        Place::Table { descriptor, lookup, offset, .. } => {
            ||| table_reads(m, w, lookup, offset, x)
            ||| fields_read(m, w, descriptor + DESCRIPTOR_SIZE, x)
        },
        Place::End => false,
    }
}

/// Walking from place `p` to the end reads byte `x` for the name of a module.
pub open spec fn walk_reads_name(m: Seq<u8>, p: Place, x: int) -> bool {
    match p {
        Place::Descriptor(d) => module_names_read(m, d, x),
        Place::Table { descriptor, .. } => module_names_read(m, descriptor + DESCRIPTOR_SIZE, x),
        Place::End => false,
    }
}

/// Walking from place `p` to the end reads byte `x`.
pub open spec fn walk_reads(m: Seq<u8>, w: Width, p: Place, x: int) -> bool {
    walk_reads_field(m, w, p, x) || walk_reads_name(m, p, x)
}

/// The modules have the same size. Where the walk of the first one from place `p` reads the name of
/// a module they have the same byte up to the case of an ASCII letter, and wherever else it reads
/// they have the same byte.
pub open spec fn agree_up_to_case(m: Seq<u8>, other: Seq<u8>, w: Width, p: Place) -> bool {
    &&& m.len() == other.len()
    &&& forall|x: int|
        0 <= x < m.len() && #[trigger] walk_reads_field(m, w, p, x) ==> m[x] == other[x]
    &&& forall|x: int|
        0 <= x < m.len() && #[trigger] walk_reads_name(m, p, x) ==> lower(m[x]) == lower(other[x])
}

/// The modules have the same size, and the same byte wherever the walk of the first one from place
/// `p` reads.
pub open spec fn agree(m: Seq<u8>, other: Seq<u8>, w: Width, p: Place) -> bool {
    &&& m.len() == other.len()
    &&& forall|x: int|
        0 <= x < m.len() && #[trigger] walk_reads(m, w, p, x) ==> m[x] == other[x]
}

/// No slot that a walk of the unchanged module `m` stops at is read again behind that stop. A
/// module may list its names in the address table itself: a slot is then read once, before it is
/// redirected.
pub open spec fn separated(m: Seq<u8>, w: Width, p: Place) -> bool
    decreases descriptors_left(m.len(), p), table_left(m.len(), p),
{
    match find_next(m, w, p) {
        Find::Import { slot, resume, .. } => {
            proof {
                law_walk_advances(m, w, p);
            }
            &&& forall|x: int|
                slot <= x < slot + w.size() ==> !(#[trigger] walk_reads(m, w, resume, x))
            &&& separated(m, w, resume)
        },
        _ => true,
    }
}

/// The first zero byte at or after `at`.
proof fn lemma_first_zero(m: Seq<u8>, at: int) -> (z: int)
    requires
        terminated(m, at),
    ensures
        at <= z < m.len(),
        m[z] == 0,
        forall|j: int| at <= j < z ==> #[trigger] m[j] != 0,
    decreases m.len() - at,
{
    if m[at] == 0 {
        at
    } else {
        let z = lemma_first_zero(m, at + 1);
        z
    }
}

/// Two modules that hold the same string at an offset find the same function there.
proof fn lemma_same_name(m: Seq<u8>, other: Seq<u8>, at: int)
    requires
        m.len() == other.len(),
        0 <= at,
        forall|x: int| 0 <= x < m.len() && #[trigger] name_reads(m, at, x) ==> m[x] == other[x],
    ensures
        terminated(m, at) == terminated(other, at),
        terminated(m, at) ==> api_at(m, at) == api_at(other, at),
{
    if terminated(m, at) {
        let z = lemma_first_zero(m, at);
        assert forall|x: int| at <= x <= z implies m[x] == other[x] by {
            assert(name_reads(m, at, x));
        }
        assert(other[z] == 0);
        assert forall|a: ConsoleApi|
            has_name(m, at, #[trigger] a.name_bytes()) == has_name(other, at, a.name_bytes()) by {
            lemma_names(a);
            lemma_same_exact(m, other, at, z, a.name_chars());
        }
        lemma_api_at(m, at);
        lemma_api_at(other, at);
        match (api_at(m, at), api_at(other, at)) {
            (Some(a), _) => {
                assert(has_name(m, at, a.name_bytes()));
            },
            (_, Some(a)) => {
                assert(has_name(other, at, a.name_bytes()));
            },
            _ => {},
        }
    } else {
        assert forall|x: int| at <= x < m.len() implies m[x] == other[x] && m[x] != 0 by {
            assert(name_reads(m, at, x));
        }
    }
}

/// Two modules that hold the same string at an offset up to case agree whether it names
/// `KERNEL32.dll`.
proof fn lemma_same_module_name(m: Seq<u8>, other: Seq<u8>, at: int)
    requires
        m.len() == other.len(),
        0 <= at,
        forall|x: int|
            0 <= x < m.len() && #[trigger] name_reads(m, at, x) ==> lower(m[x]) == lower(other[x]),
    ensures
        terminated(m, at) == terminated(other, at),
        terminated(m, at) ==> names_kernel32(m, at) == names_kernel32(other, at),
{
    if terminated(m, at) {
        let z = lemma_first_zero(m, at);
        assert forall|x: int| at <= x <= z implies lower(m[x]) == lower(other[x]) by {
            assert(name_reads(m, at, x));
        }
        assert(other[z] == 0);
        reveal_strlit("KERNEL32.dll");
        lemma_same_in_any_case(m, other, at, z, "KERNEL32.dll"@);
    } else {
        assert forall|x: int| at <= x < m.len() implies m[x] != 0 && #[trigger] other[x] != 0 by {
            assert(name_reads(m, at, x));
        }
    }
}

proof fn lemma_same_exact(m: Seq<u8>, other: Seq<u8>, at: int, z: int, name: Seq<char>)
    requires
        m.len() == other.len(),
        0 <= at <= z < m.len(),
        m[z] == 0,
        forall|j: int| at <= j < z ==> #[trigger] m[j] != 0,
        forall|x: int| at <= x <= z ==> m[x] == other[x],
        is_name(name),
    ensures
        has_name(m, at, ascii(name)) == has_name(other, at, ascii(name)),
{
    let bytes = ascii(name);
    assert(forall|i: int| 0 <= i < bytes.len() ==> #[trigger] bytes[i] != 0);
    if has_name(m, at, bytes) || has_name(other, at, bytes) {
        if z < at + bytes.len() {
            assert(bytes[z - at] != 0);
            assert(m[at + (z - at)] == 0 && other[at + (z - at)] == 0);
        }
    }
}

proof fn lemma_same_in_any_case(m: Seq<u8>, other: Seq<u8>, at: int, z: int, name: Seq<char>)
    requires
        m.len() == other.len(),
        0 <= at <= z < m.len(),
        m[z] == 0,
        forall|j: int| at <= j < z ==> #[trigger] m[j] != 0,
        forall|x: int| at <= x <= z ==> lower(m[x]) == lower(other[x]),
        is_name(name),
    ensures
        has_name_in_any_case(m, at, ascii(name)) == has_name_in_any_case(other, at, ascii(name)),
{
    let bytes = ascii(name);
    assert(forall|i: int| 0 <= i < bytes.len() ==> #[trigger] bytes[i] != 0);
    if has_name_in_any_case(m, at, bytes) || has_name_in_any_case(other, at, bytes) {
        if z < at + bytes.len() {
            assert(bytes[z - at] != 0);
            assert(m[at + (z - at)] == 0 && other[at + (z - at)] == 0);
        }
    }
}

/// A table search gives the same on a module that has the same bytes wherever the search reads.
proof fn lemma_scan_agrees(
    m: Seq<u8>,
    other: Seq<u8>,
    w: Width,
    lookup: int,
    slots: int,
    offset: int,
)
    requires
        m.len() == other.len(),
        forall|x: int|
            0 <= x < m.len() && #[trigger] table_reads(m, w, lookup, offset, x) ==> m[x]
                == other[x],
    ensures
        scan_table(m, w, lookup, slots, offset) == scan_table(other, w, lookup, slots, offset),
    decreases m.len() - (lookup + offset),
{
    let at = lookup + offset;
    if in_image(m, at, w.size()) {
        assert forall|x: int| at <= x < at + w.size() implies m[x] == other[x] by {
            assert(table_reads(m, w, lookup, offset, x));
        }
        let entry = word_at(m, w, at);
        assert(entry == word_at(other, w, at));
        if entry != 0 {
            assert forall|x: int|
                0 <= x < m.len() && #[trigger] table_reads(
                    m,
                    w,
                    lookup,
                    offset + w.size(),
                    x,
                ) implies m[x] == other[x] by {
                assert(table_reads(m, w, lookup, offset, x));
            }
            lemma_scan_agrees(m, other, w, lookup, slots, offset + w.size());
            if !by_ordinal(w, entry) {
                assert forall|x: int|
                    0 <= x < m.len() && #[trigger] name_reads(
                        m,
                        entry + NAME_OFFSET,
                        x,
                    ) implies m[x] == other[x] by {
                    assert(table_reads(m, w, lookup, offset, x));
                }
                lemma_same_name(m, other, entry + NAME_OFFSET);
            }
        }
    }
}

/// A walk of the descriptors comes to the same on a module that has the same bytes wherever the walk
/// reads, up to the case of module names.
proof fn lemma_find_from_agrees(m: Seq<u8>, other: Seq<u8>, w: Width, d: int)
    requires
        agree_up_to_case(m, other, w, Place::Descriptor(d)),
    ensures
        find_from(m, w, d) == find_from(other, w, d),
    decreases
            if d <= m.len() {
                m.len() - d
            } else {
                0
            },
{
    let field = d + DESCRIPTOR_NAME_FIELD;
    let here = Place::Descriptor(d);
    let next = Place::Descriptor(d + DESCRIPTOR_SIZE);
    if in_image(m, field, 4) {
        assert forall|x: int| field <= x < field + 4 implies m[x] == other[x] by {
            assert(walk_reads_field(m, w, here, x));
        }
        let name = u32_at(m, field);
        assert(name == u32_at(other, field));
        if name != 0 {
            assert forall|x: int| 0 <= x < m.len() && #[trigger] name_reads(m, name, x) implies lower(
                m[x],
            ) == lower(other[x]) by {
                assert(walk_reads_name(m, here, x));
            }
            lemma_same_module_name(m, other, name);
            assert forall|x: int|
                0 <= x < m.len() && #[trigger] walk_reads_field(m, w, next, x) implies m[x]
                == other[x] by {
                assert(walk_reads_field(m, w, here, x));
            }
            assert forall|x: int|
                0 <= x < m.len() && #[trigger] walk_reads_name(m, next, x) implies lower(m[x])
                == lower(other[x]) by {
                assert(walk_reads_name(m, here, x));
            }
            lemma_find_from_agrees(m, other, w, d + DESCRIPTOR_SIZE);
            if terminated(m, name) && names_kernel32(m, name) && in_image(
                m,
                d,
                DESCRIPTOR_SIZE as int,
            ) {
                let slots_field = d + DESCRIPTOR_SLOTS_FIELD;
                assert forall|x: int|
                    d <= x < d + 4 || slots_field <= x < slots_field + 4 implies m[x]
                    == other[x] by {
                    assert(walk_reads_field(m, w, here, x));
                }
                assert(tables_of(m, d) == tables_of(other, d));
                if let Place::Table { lookup, slots, .. } = tables_of(m, d) {
                    assert forall|x: int|
                        0 <= x < m.len() && #[trigger] table_reads(
                            m,
                            w,
                            lookup,
                            0,
                            x,
                        ) implies m[x] == other[x] by {
                        assert(walk_reads_field(m, w, here, x));
                    }
                    lemma_scan_agrees(m, other, w, lookup, slots, 0);
                }
            }
        }
    }
}

/// What a walk comes to depends only on the bytes that it reads, and not on the case in which the
/// names of modules are written.
pub proof fn law_case_of_module_names_is_ignored(m: Seq<u8>, other: Seq<u8>, w: Width, p: Place)
    requires
        agree_up_to_case(m, other, w, p),
    ensures
        find_next(m, w, p) == find_next(other, w, p),
        sites(m, w, p) == sites(other, w, p),
        walkable(m, w, p) == walkable(other, w, p),
    decreases descriptors_left(m.len(), p), table_left(m.len(), p),
{
    match p {
        Place::Descriptor(d) => {
            lemma_find_from_agrees(m, other, w, d);
        },
        Place::Table { descriptor, lookup, slots, offset } => {
            let rest = Place::Descriptor(descriptor + DESCRIPTOR_SIZE);
            assert forall|x: int|
                0 <= x < m.len() && #[trigger] table_reads(
                    m,
                    w,
                    lookup,
                    offset,
                    x,
                ) implies m[x] == other[x] by {
                assert(walk_reads_field(m, w, p, x));
            }
            lemma_scan_agrees(m, other, w, lookup, slots, offset);
            assert forall|x: int|
                0 <= x < m.len() && #[trigger] walk_reads_field(m, w, rest, x) implies m[x]
                == other[x] by {
                assert(walk_reads_field(m, w, p, x));
            }
            assert forall|x: int|
                0 <= x < m.len() && #[trigger] walk_reads_name(m, rest, x) implies lower(m[x])
                == lower(other[x]) by {
                assert(walk_reads_name(m, p, x));
            }
            lemma_find_from_agrees(m, other, w, descriptor + DESCRIPTOR_SIZE);
        },
        Place::End => {},
    }
    if let Find::Import { resume, .. } = find_next(m, w, p) {
        law_walk_advances(m, w, p);
        assert forall|x: int|
            0 <= x < m.len() && #[trigger] walk_reads_field(m, w, resume, x) implies m[x]
            == other[x] by {
            lemma_reads_shrink(m, w, p, x);
            assert(walk_reads_field(m, w, p, x));
        }
        assert forall|x: int|
            0 <= x < m.len() && #[trigger] walk_reads_name(m, resume, x) implies lower(m[x])
            == lower(other[x]) by {
            lemma_reads_shrink(m, w, p, x);
            assert(walk_reads_name(m, p, x));
        }
        law_case_of_module_names_is_ignored(m, other, w, resume);
    }
}

/// What a walk comes to depends only on the bytes that it reads.
pub proof fn law_walk_depends_on_reads(m: Seq<u8>, other: Seq<u8>, w: Width, p: Place)
    requires
        agree(m, other, w, p),
    ensures
        find_next(m, w, p) == find_next(other, w, p),
        sites(m, w, p) == sites(other, w, p),
        walkable(m, w, p) == walkable(other, w, p),
{
    assert forall|x: int|
        0 <= x < m.len() && #[trigger] walk_reads_field(m, w, p, x) implies m[x] == other[x] by {
        assert(walk_reads(m, w, p, x));
    }
    assert forall|x: int|
        0 <= x < m.len() && #[trigger] walk_reads_name(m, p, x) implies lower(m[x]) == lower(
        other[x],
    ) by {
        assert(walk_reads(m, w, p, x));
    }
    law_case_of_module_names_is_ignored(m, other, w, p);
}

/// What is read behind an entry that a table search stops at is read from its beginning too.
proof fn lemma_table_reads_shrink(
    m: Seq<u8>,
    w: Width,
    lookup: int,
    slots: int,
    offset: int,
    x: int,
)
    ensures
        scan_table(m, w, lookup, slots, offset) matches TableFind::Import { offset: o, .. } && (
        table_reads(m, w, lookup, o + w.size(), x)) ==> table_reads(m, w, lookup, offset, x),
    decreases m.len() - (lookup + offset),
{
    if in_image(m, lookup + offset, w.size()) {
        lemma_table_reads_shrink(m, w, lookup, slots, offset + w.size(), x);
    }
}

proof fn lemma_descriptor_reads_shrink(m: Seq<u8>, w: Width, d: int, x: int)
    ensures
        find_from(m, w, d) matches Find::Import { resume, .. } ==> {
            &&& walk_reads_field(m, w, resume, x) ==> fields_read(m, w, d, x)
            &&& walk_reads_name(m, resume, x) ==> module_names_read(m, d, x)
        },
    decreases
            if d <= m.len() {
                m.len() - d
            } else {
                0
            },
{
    if in_image(m, d + DESCRIPTOR_NAME_FIELD, 4) {
        lemma_descriptor_reads_shrink(m, w, d + DESCRIPTOR_SIZE, x);
        if let Place::Table { lookup, slots, .. } = tables_of(m, d) {
            lemma_table_reads_shrink(m, w, lookup, slots, 0, x);
        }
    }
}

/// What a walk reads behind a stop, it reads from any earlier place too.
pub proof fn lemma_reads_shrink(m: Seq<u8>, w: Width, p: Place, x: int)
    ensures
        find_next(m, w, p) matches Find::Import { resume, .. } ==> {
            &&& walk_reads_field(m, w, resume, x) ==> walk_reads_field(m, w, p, x)
            &&& walk_reads_name(m, resume, x) ==> walk_reads_name(m, p, x)
        },
{
    match p {
        Place::Descriptor(d) => {
            lemma_descriptor_reads_shrink(m, w, d, x);
        },
        Place::Table { descriptor, lookup, slots, offset } => {
            lemma_table_reads_shrink(m, w, lookup, slots, offset, x);
            lemma_descriptor_reads_shrink(m, w, descriptor + DESCRIPTOR_SIZE, x);
        },
        Place::End => {},
    }
}

/// Two modules that hold the same string at an offset are read in the same places for it.
proof fn lemma_name_reads_agree(m: Seq<u8>, other: Seq<u8>, at: int, x: int)
    requires
        m.len() == other.len(),
        0 <= at,
        forall|y: int| 0 <= y < m.len() && #[trigger] name_reads(m, at, y) ==> m[y] == other[y],
    ensures
        name_reads(m, at, x) == name_reads(other, at, x),
{
    if at <= x < m.len() {
        if name_reads(m, at, x) {
            assert forall|j: int| at <= j < x implies #[trigger] other[j] != 0 by {
                assert(name_reads(m, at, j));
            }
        } else {
            let j = choose|j: int| at <= j < x && #[trigger] m[j] == 0;
            assert(m[j] == 0);
            let z = lemma_first_zero(m, at);
            assert(z <= j);
            assert(name_reads(m, at, z));
            assert(other[z] == 0);
        }
    }
}

proof fn lemma_table_reads_agree(
    m: Seq<u8>,
    other: Seq<u8>,
    w: Width,
    lookup: int,
    offset: int,
    x: int,
)
    requires
        m.len() == other.len(),
        forall|y: int|
            0 <= y < m.len() && #[trigger] table_reads(m, w, lookup, offset, y) ==> m[y]
                == other[y],
    ensures
        table_reads(m, w, lookup, offset, x) == table_reads(other, w, lookup, offset, x),
    decreases m.len() - (lookup + offset),
{
    let at = lookup + offset;
    if in_image(m, at, w.size()) {
        assert forall|y: int| at <= y < at + w.size() implies m[y] == other[y] by {
            assert(table_reads(m, w, lookup, offset, y));
        }
        let entry = word_at(m, w, at);
        assert(entry == word_at(other, w, at));
        if entry != 0 {
            assert forall|y: int|
                0 <= y < m.len() && #[trigger] table_reads(
                    m,
                    w,
                    lookup,
                    offset + w.size(),
                    y,
                ) implies m[y] == other[y] by {
                assert(table_reads(m, w, lookup, offset, y));
            }
            lemma_table_reads_agree(m, other, w, lookup, offset + w.size(), x);
            if !by_ordinal(w, entry) {
                assert forall|y: int|
                    0 <= y < m.len() && #[trigger] name_reads(
                        m,
                        entry + NAME_OFFSET,
                        y,
                    ) implies m[y] == other[y] by {
                    assert(table_reads(m, w, lookup, offset, y));
                }
                lemma_name_reads_agree(m, other, entry + NAME_OFFSET, x);
            }
        }
    }
}

/// A descriptor names `KERNEL32.dll` in both of two modules that have the same bytes wherever the walk
/// of the first one reads, or in none.
proof fn lemma_descriptor_agrees(m: Seq<u8>, other: Seq<u8>, w: Width, d: int)
    requires
        agree(m, other, w, Place::Descriptor(d)),
        in_image(m, d + DESCRIPTOR_NAME_FIELD, 4),
    ensures
        ({
            let name = u32_at(m, d + DESCRIPTOR_NAME_FIELD);
            &&& name == u32_at(other, d + DESCRIPTOR_NAME_FIELD)
            &&& name != 0 ==> {
                &&& names_kernel32(m, name) == names_kernel32(other, name)
                &&& forall|y: int|
                    0 <= y < m.len() && #[trigger] name_reads(m, name, y) ==> m[y] == other[y]
                &&& agree(m, other, w, Place::Descriptor(d + DESCRIPTOR_SIZE))
            }
        }),
{
    let field = d + DESCRIPTOR_NAME_FIELD;
    let here = Place::Descriptor(d);
    let next = Place::Descriptor(d + DESCRIPTOR_SIZE);
    assert forall|y: int| field <= y < field + 4 implies m[y] == other[y] by {
        assert(walk_reads(m, w, here, y));
    }
    let name = u32_at(m, field);
    if name != 0 {
        assert forall|y: int| 0 <= y < m.len() && #[trigger] name_reads(m, name, y) implies m[y]
            == other[y] by {
            assert(walk_reads(m, w, here, y));
        }
        lemma_same_module_name(m, other, name);
        if names_kernel32(m, name) || names_kernel32(other, name) {
            reveal_strlit("KERNEL32.dll");
            let end = name + ascii("KERNEL32.dll"@).len();
            assert(m[end] == 0 || other[end] == 0);
        }
        assert forall|y: int| 0 <= y < m.len() && #[trigger] walk_reads(m, w, next, y) implies m[y]
            == other[y] by {
            assert(walk_reads(m, w, here, y));
        }
    }
}

proof fn lemma_descriptor_reads_agree(m: Seq<u8>, other: Seq<u8>, w: Width, d: int, x: int)
    requires
        agree(m, other, w, Place::Descriptor(d)),
    ensures
        fields_read(m, w, d, x) == fields_read(other, w, d, x),
        module_names_read(m, d, x) == module_names_read(other, d, x),
    decreases
            if d <= m.len() {
                m.len() - d
            } else {
                0
            },
{
    let here = Place::Descriptor(d);
    if in_image(m, d + DESCRIPTOR_NAME_FIELD, 4) {
        lemma_descriptor_agrees(m, other, w, d);
        let name = u32_at(m, d + DESCRIPTOR_NAME_FIELD);
        if name != 0 {
            lemma_name_reads_agree(m, other, name, x);
            lemma_descriptor_reads_agree(m, other, w, d + DESCRIPTOR_SIZE, x);
            if names_kernel32(m, name) && in_image(m, d, DESCRIPTOR_SIZE as int) {
                let slots_field = d + DESCRIPTOR_SLOTS_FIELD;
                assert forall|y: int|
                    d <= y < d + 4 || slots_field <= y < slots_field + 4 implies m[y]
                    == other[y] by {
                    assert(walk_reads(m, w, here, y));
                }
                assert(tables_of(m, d) == tables_of(other, d));
                if let Place::Table { lookup, .. } = tables_of(m, d) {
                    assert forall|y: int|
                        0 <= y < m.len() && #[trigger] table_reads(
                            m,
                            w,
                            lookup,
                            0,
                            y,
                        ) implies m[y] == other[y] by {
                        assert(walk_reads(m, w, here, y));
                    }
                    lemma_table_reads_agree(m, other, w, lookup, 0, x);
                }
            }
        }
    }
}

/// Where a walk reads depends only on the bytes that it reads.
pub proof fn lemma_reads_agree(m: Seq<u8>, other: Seq<u8>, w: Width, p: Place, x: int)
    requires
        agree(m, other, w, p),
    ensures
        walk_reads_field(m, w, p, x) == walk_reads_field(other, w, p, x),
        walk_reads_name(m, p, x) == walk_reads_name(other, p, x),
{
    match p {
        Place::Descriptor(d) => {
            lemma_descriptor_reads_agree(m, other, w, d, x);
        },
        Place::Table { descriptor, lookup, offset, .. } => {
            let rest = Place::Descriptor(descriptor + DESCRIPTOR_SIZE);
            assert forall|y: int|
                0 <= y < m.len() && #[trigger] table_reads(
                    m,
                    w,
                    lookup,
                    offset,
                    y,
                ) implies m[y] == other[y] by {
                assert(walk_reads(m, w, p, y));
            }
            assert forall|y: int| 0 <= y < m.len() && #[trigger] walk_reads(m, w, rest, y) implies m[y]
                == other[y] by {
                assert(walk_reads(m, w, p, y));
            }
            lemma_table_reads_agree(m, other, w, lookup, offset, x);
            lemma_descriptor_reads_agree(m, other, w, descriptor + DESCRIPTOR_SIZE, x);
        },
        Place::End => {},
    }
}

} // verus!
