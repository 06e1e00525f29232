//! The case in which a module writes the names of the modules that it imports from.
use crate::api::{ApiTable, ConsoleApi};
use crate::imports::{
    find_next, headers_at, import_directory, import_field_at, Find, HeaderError, Place,
    HEADER_OFFSET_FIELD,
};
use crate::install::{attempt, begin, ending_of, original_of, run, Progress};
use crate::laws::{
    granted, in_slot, law_answers_decide, lemma_granted_are_imports, lemma_run_reads,
    lemma_sites_in_image, stops,
};
use crate::memory::{u16_at, u32_at, word_at, Width};
use crate::names::lower;
use crate::reads::{
    agree_up_to_case, law_case_of_module_names_is_ignored, separated, walk_reads_field,
    walk_reads_name,
};
use crate::sites::{law_walk_advances, sites};
use vstd::prelude::*;

verus! {

/// Finding the import descriptors of a module reads byte `x`.
pub open spec fn header_reads(m: Seq<u8>, w: Width, x: int) -> bool {
    ||| 0 <= x < 2
    ||| HEADER_OFFSET_FIELD <= x < HEADER_OFFSET_FIELD + 4
    ||| headers_at(m) <= x < headers_at(m) + 4
    ||| import_field_at(m, w) <= x < import_field_at(m, w) + 4
}

/// The modules have the same size, and the same byte wherever finding the import descriptors reads.
pub open spec fn same_headers(m: Seq<u8>, other: Seq<u8>, w: Width) -> bool {
    &&& m.len() == other.len()
    &&& forall|x: int| 0 <= x < m.len() && #[trigger] header_reads(m, w, x) ==> m[x] == other[x]
}

/// Modules with the same headers have the same import descriptors, or are rejected for the same
/// reason.
pub proof fn law_headers_decide(m: Seq<u8>, other: Seq<u8>, w: Width)
    requires
        same_headers(m, other, w),
    ensures
        import_directory(m, w) == import_directory(other, w),
{
    assert forall|x: int| 0 <= x < m.len() && header_reads(m, w, x) implies m[x] == other[x] by {}
    if m.len() >= 2 {
        assert(header_reads(m, w, 0) && header_reads(m, w, 1));
        assert(u16_at(m, 0) == u16_at(other, 0));
        let at = HEADER_OFFSET_FIELD as int;
        if m.len() >= at + 4 {
            lemma_same_field(m, other, w, at);
            assert(headers_at(m) == headers_at(other));
            if 0 <= headers_at(m) && headers_at(m) + 4 <= m.len() {
                lemma_same_field(m, other, w, headers_at(m));
            }
            if 0 <= import_field_at(m, w) && import_field_at(m, w) + 4 <= m.len() {
                lemma_same_field(m, other, w, import_field_at(m, w));
            }
        }
    }
}

proof fn lemma_same_field(m: Seq<u8>, other: Seq<u8>, w: Width, at: int)
    requires
        same_headers(m, other, w),
        0 <= at,
        at + 4 <= m.len(),
        forall|x: int| at <= x < at + 4 ==> #[trigger] header_reads(m, w, x),
    ensures
        u32_at(m, at) == u32_at(other, at),
{
    assert(header_reads(m, w, at) && header_reads(m, w, at + 1));
    assert(header_reads(m, w, at + 2) && header_reads(m, w, at + 3));
}

/// Where the installation `p` has still to read the name of a module, the modules `m` and `other` have
/// the same byte up to the case of an ASCII letter, and wherever else it has to read they have the
/// same byte.
pub open spec fn differ_in_case(m: Seq<u8>, other: Seq<u8>, w: Width, p: Progress) -> bool {
    &&& m.len() == other.len()
    &&& forall|x: int|
        0 <= x < m.len() && #[trigger] walk_reads_field(p.image, w, p.place, x) ==> m[x]
            == other[x]
    &&& forall|x: int|
        0 <= x < m.len() && #[trigger] walk_reads_name(p.image, p.place, x) ==> lower(m[x])
            == lower(other[x])
}

/// The modules `m` and `other` have the same bytes in the slot at `slot`.
pub open spec fn same_slot(m: Seq<u8>, other: Seq<u8>, w: Width, slot: int) -> bool {
    forall|x: int| 0 <= x < m.len() && #[trigger] in_slot(w, slot, x) ==> m[x] == other[x]
}

/// The installations `p` on the module `m` and `q` on the module `other` have done the same. They
/// stand at the same place and have redirected the same slots, which hold the same now and, where the
/// modules did not differ, held the same before. Every byte is either the same in both or what it was
/// in each module.
pub open spec fn same_work(
    m: Seq<u8>,
    other: Seq<u8>,
    w: Width,
    p: Progress,
    q: Progress,
) -> bool {
    &&& p.image.len() == m.len()
    &&& q.image.len() == m.len()
    &&& p.place == q.place
    &&& p.done.len() == q.done.len()
    &&& forall|j: int|
        0 <= j < p.done.len() ==> {
            &&& (#[trigger] p.done[j]).slot == q.done[j].slot
            &&& p.done[j].api == q.done[j].api
            &&& same_slot(p.image, q.image, w, p.done[j].slot)
            &&& same_slot(m, other, w, p.done[j].slot) ==> p.done[j] == q.done[j]
        }
    &&& forall|x: int|
        0 <= x < m.len() ==> {
            ||| #[trigger] p.image[x] == q.image[x]
            ||| p.image[x] == m[x] && q.image[x] == other[x]
        }
}

/// Installations that have done the same come to the same next.
proof fn lemma_same_next(m: Seq<u8>, other: Seq<u8>, w: Width, p: Progress, q: Progress)
    requires
        differ_in_case(m, other, w, p),
        same_work(m, other, w, p, q),
    ensures
        find_next(p.image, w, p.place) == find_next(q.image, w, p.place),
{
    assert forall|x: int|
        0 <= x < p.image.len() && #[trigger] walk_reads_field(
            p.image,
            w,
            p.place,
            x,
        ) implies p.image[x] == q.image[x] by {}
    assert forall|x: int|
        0 <= x < p.image.len() && #[trigger] walk_reads_name(p.image, p.place, x) implies lower(
        p.image[x],
    ) == lower(q.image[x]) by {}
    law_case_of_module_names_is_ignored(p.image, q.image, w, p.place);
}

proof fn lemma_same_attempt(
    m: Seq<u8>,
    other: Seq<u8>,
    w: Width,
    hooks: ApiTable,
    granted: bool,
    p: Progress,
    q: Progress,
)
    requires
        differ_in_case(m, other, w, p),
        same_work(m, other, w, p, q),
    ensures
        same_work(m, other, w, attempt(p, w, hooks, granted), attempt(q, w, hooks, granted)),
{
    lemma_same_next(m, other, w, p, q);
    law_walk_advances(p.image, w, p.place);
    let p1 = attempt(p, w, hooks, granted);
    let q1 = attempt(q, w, hooks, granted);
    if let Find::Import { slot, api, .. } = find_next(p.image, w, p.place) {
        if granted {
            assert(same_slot(p1.image, q1.image, w, slot));
            if same_slot(m, other, w, slot) {
                assert forall|x: int| slot <= x < slot + w.size() implies p.image[x]
                    == q.image[x] by {
                    assert(in_slot(w, slot, x));
                }
                assert(word_at(p.image, w, slot) == word_at(q.image, w, slot));
            }
            assert forall|j: int| 0 <= j < p1.done.len() implies {
                &&& (#[trigger] p1.done[j]).slot == q1.done[j].slot
                &&& p1.done[j].api == q1.done[j].api
                &&& same_slot(p1.image, q1.image, w, p1.done[j].slot)
                &&& same_slot(m, other, w, p1.done[j].slot) ==> p1.done[j] == q1.done[j]
            } by {
                if j < p.done.len() {
                    assert(p1.done[j] == p.done[j]);
                    assert(q1.done[j] == q.done[j]);
                    assert forall|x: int|
                        0 <= x < m.len() && #[trigger] in_slot(
                            w,
                            p.done[j].slot,
                            x,
                        ) implies p1.image[x] == q1.image[x] by {
                        assert(p.image[x] == q.image[x]);
                    }
                }
            }
            assert forall|x: int| 0 <= x < m.len() implies {
                ||| #[trigger] p1.image[x] == q1.image[x]
                ||| p1.image[x] == m[x] && q1.image[x] == other[x]
            } by {
                assert(p.image[x] == q.image[x] || p.image[x] == m[x] && q.image[x] == other[x]);
            }
        }
    }
}

proof fn lemma_same_run(
    m: Seq<u8>,
    other: Seq<u8>,
    w: Width,
    hooks: ApiTable,
    d: int,
    answers: Seq<bool>,
    n: int,
)
    requires
        0 <= n <= answers.len(),
        m.len() == other.len(),
        forall|k: int|
            0 <= k <= answers.len() ==> differ_in_case(
                m,
                other,
                w,
                #[trigger] run(begin(m, d), w, hooks, answers.take(k)),
            ),
    ensures
        same_work(
            m,
            other,
            w,
            run(begin(m, d), w, hooks, answers.take(n)),
            run(begin(other, d), w, hooks, answers.take(n)),
        ),
    decreases n,
{
    if n > 0 {
        lemma_same_run(m, other, w, hooks, d, answers, n - 1);
        assert(answers.take(n).drop_last() =~= answers.take(n - 1));
        lemma_same_attempt(
            m,
            other,
            w,
            hooks,
            answers[n - 1],
            run(begin(m, d), w, hooks, answers.take(n - 1)),
            run(begin(other, d), w, hooks, answers.take(n - 1)),
        );
    }
}

/// The case in which the names of modules are written has no effect on an installation. Two modules
/// that differ in the case of such names, and have the same byte wherever the installation on the
/// first one reads for anything else, get the same answer about their headers; the same slots are
/// redirected in both, to the same addresses, and both installations end in the same way. A slot in
/// which the modules do not differ holds the same in both in the end, and the same is remembered of
/// it.
pub proof fn law_case_has_no_effect(
    m: Seq<u8>,
    other: Seq<u8>,
    w: Width,
    hooks: ApiTable,
    answers: Seq<bool>,
)
    requires
        same_headers(m, other, w),
        import_directory(m, w) matches Ok(d) ==> forall|k: int|
            0 <= k <= answers.len() ==> differ_in_case(
                m,
                other,
                w,
                #[trigger] run(begin(m, d), w, hooks, answers.take(k)),
            ),
    ensures
        import_directory(m, w) == import_directory(other, w),
        import_directory(m, w) matches Ok(d) ==> {
            let p = run(begin(m, d), w, hooks, answers);
            let q = run(begin(other, d), w, hooks, answers);
            &&& same_work(m, other, w, p, q)
            &&& p.done.len() == q.done.len()
            &&& ending_of(p, w) == ending_of(q, w)
            &&& forall|slot: int|
                0 <= slot && slot + w.size() <= m.len() && #[trigger] same_slot(m, other, w, slot)
                    ==> word_at(p.image, w, slot) == word_at(q.image, w, slot)
        },
{
    law_headers_decide(m, other, w);
    if let Ok(d) = import_directory(m, w) {
        let n = answers.len() as int;
        let p = run(begin(m, d), w, hooks, answers);
        let q = run(begin(other, d), w, hooks, answers);
        lemma_same_run(m, other, w, hooks, d, answers, n);
        assert(answers.take(n) =~= answers);
        assert(differ_in_case(m, other, w, run(begin(m, d), w, hooks, answers.take(n))));
        lemma_same_next(m, other, w, p, q);
        assert forall|slot: int|
            0 <= slot && slot + w.size() <= m.len() && #[trigger] same_slot(
                m,
                other,
                w,
                slot,
            ) implies word_at(p.image, w, slot) == word_at(q.image, w, slot) by {
            assert forall|x: int| slot <= x < slot + w.size() implies p.image[x] == q.image[x] by {
                assert(in_slot(w, slot, x));
            }
        }
    }
}

/// On a module in which no slot is read again after it was redirected, it is enough that a walk of the
/// unchanged module meets differences in the names of modules alone. If the modules do not differ in
/// the slots of their imports, the installations redirect as many of them, remember the same of each,
/// and leave the same in every slot.
pub proof fn law_case_has_no_effect_on_slots(
    m: Seq<u8>,
    other: Seq<u8>,
    w: Width,
    hooks: ApiTable,
    d: int,
    answers: Seq<bool>,
)
    requires
        same_headers(m, other, w),
        import_directory(m, w) == Ok::<int, HeaderError>(d),
        agree_up_to_case(m, other, w, Place::Descriptor(d)),
        separated(m, w, Place::Descriptor(d)),
        forall|j: int|
            0 <= j < sites(m, w, Place::Descriptor(d)).len() ==> same_slot(
                m,
                other,
                w,
                (#[trigger] sites(m, w, Place::Descriptor(d))[j]).slot,
            ),
    ensures
        import_directory(other, w) == Ok::<int, HeaderError>(d),
        ({
            let all = sites(m, w, Place::Descriptor(d));
            let p = run(begin(m, d), w, hooks, answers);
            let q = run(begin(other, d), w, hooks, answers);
            &&& p.done == q.done
            &&& ending_of(p, w) == ending_of(q, w)
            &&& forall|a: ConsoleApi| original_of(p.done, a) == #[trigger] original_of(q.done, a)
            &&& all == sites(other, w, Place::Descriptor(d))
            &&& forall|j: int|
                0 <= j < all.len() ==> word_at(p.image, w, (#[trigger] all[j]).slot) == word_at(
                    q.image,
                    w,
                    all[j].slot,
                )
        }),
{
    let start = Place::Descriptor(d);
    let all = sites(m, w, start);
    let p = run(begin(m, d), w, hooks, answers);
    let q = run(begin(other, d), w, hooks, answers);
    assert forall|k: int| 0 <= k <= answers.len() implies differ_in_case(
        m,
        other,
        w,
        #[trigger] run(begin(m, d), w, hooks, answers.take(k)),
    ) by {
        let now = run(begin(m, d), w, hooks, answers.take(k));
        assert forall|x: int|
            0 <= x < m.len() && #[trigger] walk_reads_field(now.image, w, now.place, x) implies m[x]
            == other[x] by {
            lemma_run_reads(m, w, hooks, d, answers, k, x);
            assert(walk_reads_field(m, w, start, x));
        }
        assert forall|x: int|
            0 <= x < m.len() && #[trigger] walk_reads_name(now.image, now.place, x) implies lower(
            m[x],
        ) == lower(other[x]) by {
            lemma_run_reads(m, w, hooks, d, answers, k, x);
            assert(walk_reads_name(m, start, x));
        }
    }
    law_case_has_no_effect(m, other, w, hooks, answers);
    law_case_of_module_names_is_ignored(m, other, w, start);
    law_answers_decide(m, w, hooks, d, answers);
    let n = stops(all, answers.len() as int);
    lemma_granted_are_imports(all, answers, n);
    assert forall|j: int| 0 <= j < p.done.len() implies p.done[j] == #[trigger] q.done[j] by {
        let y = granted(all, answers, n)[j];
        assert(all.contains(y));
        let i = choose|i: int| 0 <= i < all.len() && all[i] == y;
        assert(same_slot(m, other, w, all[i].slot));
        assert(p.done[j].slot == y.slot);
    }
    assert(p.done =~= q.done);
    lemma_sites_in_image(m, w, start);
    assert forall|j: int| 0 <= j < all.len() implies word_at(p.image, w, (#[trigger] all[j]).slot)
        == word_at(q.image, w, all[j].slot) by {
        assert(same_slot(m, other, w, all[j].slot));
    }
}

} // verus!
