//! What an installation as a whole does to a module.
use crate::api::{ApiTable, ConsoleApi};
use crate::console::{buffer_info_reply, BufferInfoReply};
use crate::imports::{find_next, Find, Place};
use crate::install::{
    attempt, begin, ending_of, original_of, run, Ending, Progress, Redirection,
};
use crate::memory::{in_image, lemma_same_word, lemma_word_round_trip, word_at, Width};
use crate::reads::{
    agree, law_walk_depends_on_reads, lemma_reads_agree, lemma_reads_shrink, separated, walk_reads,
    walk_reads_field, walk_reads_name,
};
use crate::sites::{
    descriptors_left, law_sites_are_the_imports, law_walk_advances, module_imports, sites,
    table_left, walkable, Import,
};
use vstd::prelude::*;

verus! {

/// Byte `x` belongs to the address slot at `slot`.
pub open spec fn in_slot(w: Width, slot: int, x: int) -> bool {
    slot <= x < slot + w.size()
}

/// The number of answers that allow a slot to be written.
pub open spec fn grants(answers: Seq<bool>) -> nat
    decreases answers.len(),
{
    if answers.len() == 0 {
        0
    } else {
        grants(answers.drop_last()) + if answers.last() {
            1nat
        } else {
            0
        }
    }
}

/// An installation changes nothing but the slots that it redirects: the module keeps its size, and
/// every byte outside those slots keeps its value. Each redirected slot lies inside the module and
/// was granted by an answer.
pub proof fn law_only_slots_change(p: Progress, w: Width, hooks: ApiTable, answers: Seq<bool>)
    ensures
        ({
            let q = run(p, w, hooks, answers);
            &&& q.image.len() == p.image.len()
            &&& p.done.len() <= q.done.len() <= p.done.len() + grants(answers)
            &&& q.done.take(p.done.len() as int) == p.done
            &&& forall|j: int|
                p.done.len() <= j < q.done.len() ==> in_image(
                    p.image,
                    (#[trigger] q.done[j]).slot,
                    w.size(),
                )
            &&& forall|x: int|
                0 <= x < p.image.len() && (forall|j: int|
                    p.done.len() <= j < q.done.len() ==> !in_slot(
                        w,
                        (#[trigger] q.done[j]).slot,
                        x,
                    )) ==> #[trigger] q.image[x] == p.image[x]
        }),
    decreases answers.len(),
{
    let q = run(p, w, hooks, answers);
    if answers.len() == 0 {
        assert(p.done.take(p.done.len() as int) =~= p.done);
    } else {
        let before = run(p, w, hooks, answers.drop_last());
        law_only_slots_change(p, w, hooks, answers.drop_last());
        law_walk_advances(before.image, w, before.place);
        assert(q.done.take(p.done.len() as int) =~= before.done.take(p.done.len() as int));
        assert forall|x: int|
            0 <= x < p.image.len() && (forall|j: int|
                p.done.len() <= j < q.done.len() ==> !in_slot(
                    w,
                    (#[trigger] q.done[j]).slot,
                    x,
                )) implies #[trigger] q.image[x] == p.image[x] by {
            assert forall|j: int| p.done.len() <= j < before.done.len() implies !in_slot(
                w,
                (#[trigger] before.done[j]).slot,
                x,
            ) by {
                assert(before.done[j] == q.done[j]);
            }
            assert(before.image[x] == p.image[x]);
            if q.done.len() > before.done.len() {
                assert(!in_slot(w, q.done[before.done.len() as int].slot, x));
            }
        }
    }
}

/// The slots at `a` and `b` share no byte.
pub open spec fn apart(w: Width, a: int, b: int) -> bool {
    a + w.size() <= b || b + w.size() <= a
}

/// No two imports share a byte of their slots.
pub open spec fn slots_apart(w: Width, all: Seq<Import>) -> bool {
    forall|i: int, j: int|
        0 <= i < j < all.len() ==> apart(w, (#[trigger] all[i]).slot, (#[trigger] all[j]).slot)
}

/// The imports among the first `n` of `all` that the answers grant.
pub open spec fn granted(all: Seq<Import>, answers: Seq<bool>, n: int) -> Seq<Import>
    decreases n,
{
    if n <= 0 {
        Seq::empty()
    } else if answers[n - 1] {
        granted(all, answers, n - 1).push(all[n - 1])
    } else {
        granted(all, answers, n - 1)
    }
}

/// The redirections `done` are those of the imports `chosen`, one for one.
pub open spec fn redirects(done: Seq<Redirection>, chosen: Seq<Import>) -> bool {
    &&& done.len() == chosen.len()
    &&& forall|j: int|
        0 <= j < done.len() ==> {
            &&& (#[trigger] done[j]).slot == chosen[j].slot
            &&& done[j].api == chosen[j].api
        }
}

/// The number of stops of an installation that was given `k` answers.
pub open spec fn stops(all: Seq<Import>, k: int) -> int {
    if k < all.len() {
        k
    } else {
        all.len() as int
    }
}

/// The installation `q` has dealt with the first `n` imports as the answers say, and goes on as a
/// walk of the unchanged module `m` would.
spec fn on_track(
    m: Seq<u8>,
    w: Width,
    all: Seq<Import>,
    answers: Seq<bool>,
    n: int,
    q: Progress,
) -> bool {
    &&& sites(m, w, q.place) == all.skip(n)
    &&& agree(m, q.image, w, q.place)
    &&& separated(m, w, q.place)
    &&& redirects(q.done, granted(all, answers, n))
}

/// Every granted slot among the first `n` holds the address of its hook; every other slot holds what
/// it held in `m`.
spec fn settled(
    m: Seq<u8>,
    w: Width,
    hooks: ApiTable,
    all: Seq<Import>,
    answers: Seq<bool>,
    n: int,
    q: Progress,
) -> bool {
    forall|j: int|
        0 <= j < all.len() ==> word_at(q.image, w, (#[trigger] all[j]).slot) == if j < n
            && answers[j] {
            hooks.of(all[j].api) as int
        } else {
            word_at(m, w, all[j].slot)
        }
}

/// The imports of a module have their slots inside it.
pub proof fn lemma_sites_in_image(m: Seq<u8>, w: Width, p: Place)
    ensures
        forall|j: int|
            0 <= j < sites(m, w, p).len() ==> in_image(
                m,
                (#[trigger] sites(m, w, p)[j]).slot,
                w.size(),
            ),
    decreases descriptors_left(m.len(), p), table_left(m.len(), p),
{
    if let Find::Import { resume, .. } = find_next(m, w, p) {
        law_walk_advances(m, w, p);
        lemma_sites_in_image(m, w, resume);
        assert forall|j: int| 0 <= j < sites(m, w, p).len() implies in_image(
            m,
            (#[trigger] sites(m, w, p)[j]).slot,
            w.size(),
        ) by {
            if j > 0 {
                assert(sites(m, w, p)[j] == sites(m, w, resume)[j - 1]);
            }
        }
    }
}

/// A walk that has left the first imports behind comes to the next one.
proof fn lemma_next_site(m: Seq<u8>, w: Width, all: Seq<Import>, k: int, p: Place)
    requires
        0 <= k,
        sites(m, w, p) == all.skip(stops(all, k)),
    ensures
        match find_next(m, w, p) {
            Find::Import { slot, api, resume } => {
                &&& k < all.len()
                &&& all[k] == Import { slot, api }
                &&& sites(m, w, resume) == all.skip(k + 1)
            },
            _ => k >= all.len(),
        },
{
    let left = all.skip(stops(all, k));
    match find_next(m, w, p) {
        Find::Import { slot, api, resume } => {
            let later = sites(m, w, resume);
            assert(left == seq![Import { slot, api }] + later);
            assert(left[0] == Import { slot, api });
            assert forall|j: int| 0 <= j < later.len() implies later[j] == all.skip(k + 1)[j] by {
                assert(left[j + 1] == later[j]);
            }
            assert(later =~= all.skip(k + 1));
        },
        _ => {
            assert(left.len() == 0);
        },
    }
}

/// The next stop of an installation on its way is the next import.
proof fn lemma_next_import(
    m: Seq<u8>,
    w: Width,
    all: Seq<Import>,
    answers: Seq<bool>,
    k: int,
    q: Progress,
)
    requires
        0 <= k,
        on_track(m, w, all, answers, stops(all, k), q),
    ensures
        find_next(q.image, w, q.place) == find_next(m, w, q.place),
        match find_next(m, w, q.place) {
            Find::Import { slot, api, resume } => {
                &&& k < all.len()
                &&& all[k] == Import { slot, api }
                &&& sites(m, w, resume) == all.skip(k + 1)
            },
            _ => k >= all.len(),
        },
{
    law_walk_depends_on_reads(m, q.image, w, q.place);
    lemma_next_site(m, w, all, k, q.place);
}

/// One more answer keeps an installation on its way.
proof fn lemma_attempt_on_track(
    m: Seq<u8>,
    w: Width,
    hooks: ApiTable,
    all: Seq<Import>,
    answers: Seq<bool>,
    k: int,
    q: Progress,
)
    requires
        0 <= k < answers.len(),
        on_track(m, w, all, answers, stops(all, k), q),
    ensures
        on_track(m, w, all, answers, stops(all, k + 1), attempt(q, w, hooks, answers[k])),
{
    lemma_next_import(m, w, all, answers, k, q);
    let next = attempt(q, w, hooks, answers[k]);
    if let Find::Import { slot, api, resume } = find_next(m, w, q.place) {
        assert forall|x: int|
            0 <= x < m.len() && #[trigger] walk_reads(m, w, resume, x) implies m[x]
            == next.image[x] by {
            lemma_reads_shrink(m, w, q.place, x);
            assert(walk_reads(m, w, q.place, x));
        }
    }
}

/// One more answer settles one more slot.
proof fn lemma_attempt_settles(
    m: Seq<u8>,
    w: Width,
    hooks: ApiTable,
    all: Seq<Import>,
    answers: Seq<bool>,
    k: int,
    q: Progress,
)
    requires
        0 <= k < answers.len(),
        on_track(m, w, all, answers, stops(all, k), q),
        settled(m, w, hooks, all, answers, stops(all, k), q),
        slots_apart(w, all),
        forall|j: int|
            0 <= j < all.len() ==> in_image(m, (#[trigger] all[j]).slot, w.size()),
        forall|a: ConsoleApi| #[trigger] hooks.of(a) < w.limit(),
    ensures
        settled(
            m,
            w,
            hooks,
            all,
            answers,
            stops(all, k + 1),
            attempt(q, w, hooks, answers[k]),
        ),
{
    lemma_next_import(m, w, all, answers, k, q);
    let next = attempt(q, w, hooks, answers[k]);
    if let Find::Import { slot, api, resume } = find_next(m, w, q.place) {
        lemma_word_round_trip(q.image, w, slot, hooks.of(api) as int);
        assert forall|j: int| 0 <= j < all.len() implies word_at(
            next.image,
            w,
            (#[trigger] all[j]).slot,
        ) == if j < k + 1 && answers[j] {
            hooks.of(all[j].api) as int
        } else {
            word_at(m, w, all[j].slot)
        } by {
            if j != k && answers[k] {
                let other = all[j].slot;
                if j < k {
                    assert(apart(w, other, all[k].slot));
                } else {
                    assert(apart(w, all[k].slot, other));
                }
                assert(word_at(next.image, w, other) == word_at(q.image, w, other));
            }
        }
    }
}

proof fn lemma_run_on_track(
    m: Seq<u8>,
    w: Width,
    hooks: ApiTable,
    d: int,
    answers: Seq<bool>,
    k: int,
)
    requires
        0 <= k <= answers.len(),
        separated(m, w, Place::Descriptor(d)),
    ensures
        ({
            let all = sites(m, w, Place::Descriptor(d));
            let q = run(begin(m, d), w, hooks, answers.take(k));
            &&& on_track(m, w, all, answers, stops(all, k), q)
            &&& walkable(m, w, q.place) == walkable(m, w, Place::Descriptor(d))
        }),
    decreases k,
{
    let all = sites(m, w, Place::Descriptor(d));
    if k == 0 {
        assert(all.skip(0) =~= all);
    } else {
        lemma_run_on_track(m, w, hooks, d, answers, k - 1);
        let before = run(begin(m, d), w, hooks, answers.take(k - 1));
        assert(answers.take(k).drop_last() =~= answers.take(k - 1));
        lemma_attempt_on_track(m, w, hooks, all, answers, k - 1, before);
        lemma_next_import(m, w, all, answers, k - 1, before);
    }
}

/// An installation reads nothing that a walk of the unchanged module does not read, if no slot is read
/// again after it was redirected.
pub proof fn lemma_run_reads(
    m: Seq<u8>,
    w: Width,
    hooks: ApiTable,
    d: int,
    answers: Seq<bool>,
    k: int,
    x: int,
)
    requires
        0 <= k <= answers.len(),
        separated(m, w, Place::Descriptor(d)),
    ensures
        ({
            let q = run(begin(m, d), w, hooks, answers.take(k));
            &&& walk_reads_field(q.image, w, q.place, x) ==> walk_reads_field(
                m,
                w,
                Place::Descriptor(d),
                x,
            )
            &&& walk_reads_name(q.image, q.place, x) ==> walk_reads_name(m, Place::Descriptor(d), x)
        }),
    decreases k,
{
    if k > 0 {
        let all = sites(m, w, Place::Descriptor(d));
        let before = run(begin(m, d), w, hooks, answers.take(k - 1));
        let q = run(begin(m, d), w, hooks, answers.take(k));
        lemma_run_reads(m, w, hooks, d, answers, k - 1, x);
        lemma_run_on_track(m, w, hooks, d, answers, k - 1);
        lemma_run_on_track(m, w, hooks, d, answers, k);
        assert(answers.take(k).drop_last() =~= answers.take(k - 1));
        lemma_next_import(m, w, all, answers, k - 1, before);
        lemma_reads_agree(m, before.image, w, before.place, x);
        lemma_reads_agree(m, q.image, w, q.place, x);
        lemma_reads_shrink(m, w, before.place, x);
    }
}

proof fn lemma_run_settles(
    m: Seq<u8>,
    w: Width,
    hooks: ApiTable,
    d: int,
    answers: Seq<bool>,
    k: int,
)
    requires
        0 <= k <= answers.len(),
        separated(m, w, Place::Descriptor(d)),
        slots_apart(w, sites(m, w, Place::Descriptor(d))),
        forall|a: ConsoleApi| #[trigger] hooks.of(a) < w.limit(),
    ensures
        ({
            let all = sites(m, w, Place::Descriptor(d));
            let q = run(begin(m, d), w, hooks, answers.take(k));
            settled(m, w, hooks, all, answers, stops(all, k), q)
        }),
    decreases k,
{
    if k > 0 {
        let all = sites(m, w, Place::Descriptor(d));
        lemma_sites_in_image(m, w, Place::Descriptor(d));
        lemma_run_on_track(m, w, hooks, d, answers, k - 1);
        lemma_run_settles(m, w, hooks, d, answers, k - 1);
        assert(answers.take(k).drop_last() =~= answers.take(k - 1));
        let before = run(begin(m, d), w, hooks, answers.take(k - 1));
        lemma_attempt_settles(m, w, hooks, all, answers, k - 1, before);
    }
}

/// On a module in which no slot is read again after it was redirected, an installation stops at the
/// imports of the module one by one, in their order, and redirects those whose answer grants it.
/// With an answer for every import it ends where a walk of the unchanged module ends.
pub proof fn law_answers_decide(
    m: Seq<u8>,
    w: Width,
    hooks: ApiTable,
    d: int,
    answers: Seq<bool>,
)
    requires
        separated(m, w, Place::Descriptor(d)),
    ensures
        ({
            let all = sites(m, w, Place::Descriptor(d));
            let q = run(begin(m, d), w, hooks, answers);
            &&& redirects(q.done, granted(all, answers, stops(all, answers.len() as int)))
            &&& ending_of(q, w) == if answers.len() < all.len() {
                Ending::Waiting
            } else if walkable(m, w, Place::Descriptor(d)) {
                Ending::Finished
            } else {
                Ending::OutsideImage
            }
        }),
{
    let all = sites(m, w, Place::Descriptor(d));
    let n = answers.len() as int;
    lemma_run_on_track(m, w, hooks, d, answers, n);
    assert(answers.take(n) =~= answers);
    lemma_next_import(m, w, all, answers, n, run(begin(m, d), w, hooks, answers));
}

/// Where, besides, no two slots overlap, each answer decides about its own slot alone: a granted
/// slot receives the address of its hook, and a refused one keeps its value.
pub proof fn law_slots_are_independent(
    m: Seq<u8>,
    w: Width,
    hooks: ApiTable,
    d: int,
    answers: Seq<bool>,
)
    requires
        separated(m, w, Place::Descriptor(d)),
        slots_apart(w, sites(m, w, Place::Descriptor(d))),
        forall|a: ConsoleApi| #[trigger] hooks.of(a) < w.limit(),
    ensures
        ({
            let all = sites(m, w, Place::Descriptor(d));
            let q = run(begin(m, d), w, hooks, answers);
            forall|j: int|
                0 <= j < all.len() ==> word_at(q.image, w, (#[trigger] all[j]).slot) == if j
                    < answers.len() && answers[j] {
                    hooks.of(all[j].api) as int
                } else {
                    word_at(m, w, all[j].slot)
                }
        }),
{
    let n = answers.len() as int;
    lemma_run_settles(m, w, hooks, d, answers, n);
    assert(answers.take(n) =~= answers);
}

proof fn lemma_all_granted(all: Seq<Import>, answers: Seq<bool>, n: int)
    requires
        0 <= n <= answers.len(),
        forall|j: int| 0 <= j < answers.len() ==> #[trigger] answers[j],
    ensures
        granted(all, answers, n).len() == n,
    decreases n,
{
    if n > 0 {
        lemma_all_granted(all, answers, n - 1);
        assert(answers[n - 1]);
    }
}

/// No two imports share a byte of their slots, unless both have the same slot for the same function.
pub open spec fn slots_compatible(w: Width, all: Seq<Import>) -> bool {
    forall|i: int, j: int|
        0 <= i < j < all.len() ==> {
            ||| apart(w, (#[trigger] all[i]).slot, (#[trigger] all[j]).slot)
            ||| all[i] == all[j]
        }
}

/// With every answer a grant, the imports that were dealt with are redirected.
proof fn lemma_run_redirects(
    m: Seq<u8>,
    w: Width,
    hooks: ApiTable,
    d: int,
    answers: Seq<bool>,
    k: int,
)
    requires
        0 <= k <= answers.len(),
        separated(m, w, Place::Descriptor(d)),
        slots_compatible(w, sites(m, w, Place::Descriptor(d))),
        forall|a: ConsoleApi| #[trigger] hooks.of(a) < w.limit(),
        forall|j: int| 0 <= j < answers.len() ==> #[trigger] answers[j],
    ensures
        ({
            let all = sites(m, w, Place::Descriptor(d));
            let q = run(begin(m, d), w, hooks, answers.take(k));
            forall|j: int|
                0 <= j < stops(all, k) ==> word_at(q.image, w, (#[trigger] all[j]).slot)
                    == hooks.of(all[j].api)
        }),
    decreases k,
{
    if k > 0 {
        let all = sites(m, w, Place::Descriptor(d));
        lemma_sites_in_image(m, w, Place::Descriptor(d));
        lemma_run_on_track(m, w, hooks, d, answers, k - 1);
        lemma_run_redirects(m, w, hooks, d, answers, k - 1);
        assert(answers.take(k).drop_last() =~= answers.take(k - 1));
        let before = run(begin(m, d), w, hooks, answers.take(k - 1));
        let q = run(begin(m, d), w, hooks, answers.take(k));
        lemma_next_import(m, w, all, answers, k - 1, before);
        assert(answers[k - 1]);
        if let Find::Import { slot, api, resume } = find_next(m, w, before.place) {
            lemma_word_round_trip(before.image, w, slot, hooks.of(api) as int);
            assert forall|j: int| 0 <= j < stops(all, k) implies word_at(
                q.image,
                w,
                (#[trigger] all[j]).slot,
            ) == hooks.of(all[j].api) by {
                let here = all[k - 1].slot;
                let other = all[j].slot;
                if j < k - 1 && all[j] != all[k - 1] {
                    assert(apart(w, other, here));
                    assert(word_at(q.image, w, other) == word_at(before.image, w, other));
                }
            }
        }
    }
}

/// After an installation to which every slot was granted, each console function that the module
/// imports by name from `KERNEL32.dll` is redirected to its hook. The module is one whose tables lie
/// inside it, in which no slot is read again after it was redirected and no slot belongs to two
/// different imports.
pub proof fn law_every_import_is_redirected(
    m: Seq<u8>,
    w: Width,
    hooks: ApiTable,
    d: int,
    answers: Seq<bool>,
)
    requires
        walkable(m, w, Place::Descriptor(d)),
        separated(m, w, Place::Descriptor(d)),
        slots_compatible(w, sites(m, w, Place::Descriptor(d))),
        forall|a: ConsoleApi| #[trigger] hooks.of(a) < w.limit(),
        answers.len() >= sites(m, w, Place::Descriptor(d)).len(),
        forall|j: int| 0 <= j < answers.len() ==> #[trigger] answers[j],
    ensures
        ({
            let q = run(begin(m, d), w, hooks, answers);
            &&& ending_of(q, w) == Ending::Finished
            &&& q.done.len() == sites(m, w, Place::Descriptor(d)).len()
            &&& forall|k: int, i: int, x: Import| #[trigger]
                module_imports(m, w, d, k, i, x) ==> word_at(q.image, w, x.slot) == hooks.of(x.api)
        }),
{
    let all = sites(m, w, Place::Descriptor(d));
    let q = run(begin(m, d), w, hooks, answers);
    law_answers_decide(m, w, hooks, d, answers);
    lemma_run_redirects(m, w, hooks, d, answers, answers.len() as int);
    assert(answers.take(answers.len() as int) =~= answers);
    law_sites_are_the_imports(m, w, d);
    lemma_all_granted(all, answers, all.len() as int);
    assert forall|k: int, i: int, x: Import| #[trigger]
        module_imports(m, w, d, k, i, x) implies word_at(q.image, w, x.slot) == hooks.of(x.api) by {
        assert(all.contains(x));
        let j = choose|j: int| 0 <= j < all.len() && all[j] == x;
        assert(all[j] == x);
    }
}

/// The imports that the answers grant are imports of the module.
pub proof fn lemma_granted_are_imports(all: Seq<Import>, answers: Seq<bool>, n: int)
    requires
        n <= all.len(),
    ensures
        forall|j: int|
            0 <= j < granted(all, answers, n).len() ==> all.contains(
                #[trigger] granted(all, answers, n)[j],
            ),
    decreases n,
{
    if n > 0 {
        lemma_granted_are_imports(all, answers, n - 1);
        let before = granted(all, answers, n - 1);
        let now = granted(all, answers, n);
        assert forall|j: int| 0 <= j < now.len() implies all.contains(#[trigger] now[j]) by {
            if j < before.len() {
                assert(now[j] == before[j]);
            } else {
                assert(now[j] == all[n - 1]);
            }
        }
    }
}

/// Whatever the answers, an installation leaves every byte alone that does not belong to the address
/// slot of a redirected console function imported from `KERNEL32.dll`. So all other imports of the
/// module, such as the functions for ordinary output, stay as they are. The module is one in which
/// no slot is read again after it was redirected.
pub proof fn law_other_imports_are_untouched(
    m: Seq<u8>,
    w: Width,
    hooks: ApiTable,
    d: int,
    answers: Seq<bool>,
    x: int,
)
    requires
        separated(m, w, Place::Descriptor(d)),
        0 <= x < m.len(),
        forall|k: int, i: int, y: Import| #[trigger]
            module_imports(m, w, d, k, i, y) ==> !in_slot(w, y.slot, x),
    ensures
        run(begin(m, d), w, hooks, answers).image[x] == m[x],
{
    let all = sites(m, w, Place::Descriptor(d));
    let n = stops(all, answers.len() as int);
    let q = run(begin(m, d), w, hooks, answers);
    law_answers_decide(m, w, hooks, d, answers);
    law_sites_are_the_imports(m, w, d);
    law_only_slots_change(begin(m, d), w, hooks, answers);
    lemma_granted_are_imports(all, answers, n);
    assert forall|j: int| 0 <= j < q.done.len() implies !in_slot(
        w,
        (#[trigger] q.done[j]).slot,
        x,
    ) by {
        let y = granted(all, answers, n)[j];
        assert(all.contains(y));
        let (k, i) = choose|k: int, i: int| #[trigger] module_imports(m, w, d, k, i, y);
        assert(module_imports(m, w, d, k, i, y));
    }
}

/// What is remembered of a redirected slot is what it held in the unchanged module, unless a slot
/// redirected before overlaps it.
pub proof fn law_former_values_are_remembered(
    m: Seq<u8>,
    w: Width,
    hooks: ApiTable,
    d: int,
    answers: Seq<bool>,
    j: int,
)
    requires
        0 <= j < run(begin(m, d), w, hooks, answers).done.len(),
        forall|i: int|
            0 <= i < j ==> apart(
                w,
                (#[trigger] run(begin(m, d), w, hooks, answers).done[i]).slot,
                run(begin(m, d), w, hooks, answers).done[j].slot,
            ),
    ensures
        ({
            let r = run(begin(m, d), w, hooks, answers).done[j];
            r.original == word_at(m, w, r.slot)
        }),
    decreases answers.len(),
{
    if answers.len() > 0 {
        let q = run(begin(m, d), w, hooks, answers);
        let before = run(begin(m, d), w, hooks, answers.drop_last());
        assert forall|i: int| 0 <= i < before.done.len() implies before.done[i]
            == #[trigger] q.done[i] by {}
        if j < before.done.len() {
            assert forall|i: int| 0 <= i < j implies apart(
                w,
                (#[trigger] before.done[i]).slot,
                before.done[j].slot,
            ) by {
                assert(before.done[i] == q.done[i]);
            }
            law_former_values_are_remembered(m, w, hooks, d, answers.drop_last(), j);
        } else {
            let slot = q.done[j].slot;
            law_walk_advances(before.image, w, before.place);
            law_only_slots_change(begin(m, d), w, hooks, answers.drop_last());
            assert forall|x: int| slot <= x < slot + w.size() implies before.image[x] == m[x] by {
                assert forall|i: int| 0 <= i < before.done.len() implies !in_slot(
                    w,
                    (#[trigger] before.done[i]).slot,
                    x,
                ) by {
                    assert(before.done[i] == q.done[i]);
                }
            }
            assert(word_at(before.image, w, slot) == word_at(m, w, slot));
        }
    }
}

/// What is remembered for a function is the former value of the slot that was redirected last.
proof fn lemma_original_of_last(done: Seq<Redirection>, j: int)
    requires
        0 <= j < done.len(),
        forall|i: int| j < i < done.len() ==> (#[trigger] done[i]).api != done[j].api,
    ensures
        original_of(done, done[j].api) == done[j].original,
    decreases done.len(),
{
    if j < done.len() - 1 {
        lemma_original_of_last(done.drop_last(), j);
    }
}

/// Once the function that reports the screen buffer was redirected, questions about the screen buffer
/// are passed on to the address that stood in its slot in the unchanged module: where it was
/// redirected more than once, in the last of its slots. No slot redirected before overlaps this one.
pub proof fn law_buffer_questions_are_passed_on(
    m: Seq<u8>,
    w: Width,
    hooks: ApiTable,
    d: int,
    answers: Seq<bool>,
    j: int,
    has_info: bool,
)
    requires
        0 <= j < run(begin(m, d), w, hooks, answers).done.len(),
        run(begin(m, d), w, hooks, answers).done[j].api is GetConsoleScreenBufferInfo,
        word_at(m, w, run(begin(m, d), w, hooks, answers).done[j].slot) != 0,
        forall|i: int|
            0 <= i < j ==> apart(
                w,
                (#[trigger] run(begin(m, d), w, hooks, answers).done[i]).slot,
                run(begin(m, d), w, hooks, answers).done[j].slot,
            ),
        forall|i: int|
            j < i < run(begin(m, d), w, hooks, answers).done.len() ==> !((#[trigger] run(
                begin(m, d),
                w,
                hooks,
                answers,
            ).done[i]).api is GetConsoleScreenBufferInfo),
    ensures
        ({
            let done = run(begin(m, d), w, hooks, answers).done;
            let original = original_of(done, ConsoleApi::GetConsoleScreenBufferInfo);
            &&& original == word_at(m, w, done[j].slot)
            &&& buffer_info_reply(original as u64, has_info) == BufferInfoReply::Forward(
                original as u64,
            )
        }),
{
    law_former_values_are_remembered(m, w, hooks, d, answers, j);
    lemma_original_of_last(run(begin(m, d), w, hooks, answers).done, j);
}

/// No slot of an import is read by a walk of the module, neither before nor after its own stop.
pub open spec fn slots_unread(m: Seq<u8>, w: Width, p: Place) -> bool {
    forall|j: int, x: int|
        0 <= j < sites(m, w, p).len() && in_slot(w, (#[trigger] sites(m, w, p)[j]).slot, x)
            ==> !(#[trigger] walk_reads(m, w, p, x))
}

/// Slots that are never read are not read again.
proof fn lemma_unread_is_separated(m: Seq<u8>, w: Width, p: Place)
    requires
        slots_unread(m, w, p),
    ensures
        separated(m, w, p),
    decreases descriptors_left(m.len(), p), table_left(m.len(), p),
{
    if let Find::Import { slot, api, resume } = find_next(m, w, p) {
        law_walk_advances(m, w, p);
        let all = sites(m, w, p);
        let later = sites(m, w, resume);
        assert(all == seq![Import { slot, api }] + later);
        assert forall|x: int| slot <= x < slot + w.size() implies !(#[trigger] walk_reads(
            m,
            w,
            resume,
            x,
        )) by {
            lemma_reads_shrink(m, w, p, x);
            assert(in_slot(w, all[0].slot, x));
            assert(!walk_reads(m, w, p, x));
        }
        assert forall|j: int, x: int|
            0 <= j < later.len() && in_slot(
                w,
                (#[trigger] later[j]).slot,
                x,
            ) implies !(#[trigger] walk_reads(m, w, resume, x)) by {
            lemma_reads_shrink(m, w, p, x);
            assert(all[j + 1] == later[j]);
            assert(!walk_reads(m, w, p, x));
        }
        lemma_unread_is_separated(m, w, resume);
    }
}

/// A walk of a module in which the granted slots hold their hooks already changes nothing.
proof fn lemma_again(
    m: Seq<u8>,
    w: Width,
    hooks: ApiTable,
    d: int,
    again: Seq<bool>,
    k: int,
)
    requires
        0 <= k <= again.len(),
        forall|j: int|
            0 <= j < sites(m, w, Place::Descriptor(d)).len() && j < again.len() && again[j]
                ==> word_at(m, w, (#[trigger] sites(m, w, Place::Descriptor(d))[j]).slot)
                == hooks.of(sites(m, w, Place::Descriptor(d))[j].api),
    ensures
        ({
            let all = sites(m, w, Place::Descriptor(d));
            let q = run(begin(m, d), w, hooks, again.take(k));
            &&& q.image == m
            &&& sites(m, w, q.place) == all.skip(stops(all, k))
        }),
    decreases k,
{
    let all = sites(m, w, Place::Descriptor(d));
    if k == 0 {
        assert(all.skip(0) =~= all);
    } else {
        lemma_again(m, w, hooks, d, again, k - 1);
        let before = run(begin(m, d), w, hooks, again.take(k - 1));
        assert(again.take(k).drop_last() =~= again.take(k - 1));
        lemma_next_site(m, w, all, k - 1, before.place);
        law_walk_advances(m, w, before.place);
        if let Find::Import { slot, api, .. } = find_next(m, w, before.place) {
            if again[k - 1] {
                assert(word_at(m, w, all[k - 1].slot) == hooks.of(api));
                lemma_same_word(m, w, slot);
            }
        }
    }
}

/// A second installation with the same hooks changes nothing, as long as it is granted no slot that
/// was refused to the first. It redirects the imports that its own answers grant; so with the same
/// answers it redirects as many slots as the first, and ends as the first did. The module is one in
/// which no slot is read by the walk and no two slots overlap.
pub proof fn law_second_installation_changes_nothing(
    m: Seq<u8>,
    w: Width,
    hooks: ApiTable,
    d: int,
    answers: Seq<bool>,
    again: Seq<bool>,
)
    requires
        slots_unread(m, w, Place::Descriptor(d)),
        slots_apart(w, sites(m, w, Place::Descriptor(d))),
        forall|a: ConsoleApi| #[trigger] hooks.of(a) < w.limit(),
        forall|j: int|
            0 <= j < again.len() && #[trigger] again[j] ==> j < answers.len() && answers[j],
    ensures
        ({
            let all = sites(m, w, Place::Descriptor(d));
            let first = run(begin(m, d), w, hooks, answers);
            let second = run(begin(first.image, d), w, hooks, again);
            &&& second.image == first.image
            &&& redirects(second.done, granted(all, again, stops(all, again.len() as int)))
            &&& again == answers ==> {
                &&& second.done.len() == first.done.len()
                &&& ending_of(second, w) == ending_of(first, w)
            }
        }),
{
    let p = Place::Descriptor(d);
    let all = sites(m, w, p);
    let n = stops(all, answers.len() as int);
    let q = run(begin(m, d), w, hooks, answers);
    lemma_unread_is_separated(m, w, p);
    law_answers_decide(m, w, hooks, d, answers);
    law_slots_are_independent(m, w, hooks, d, answers);
    law_only_slots_change(begin(m, d), w, hooks, answers);
    lemma_granted_are_imports(all, answers, n);
    assert forall|x: int| 0 <= x < m.len() && #[trigger] walk_reads(m, w, p, x) implies m[x]
        == q.image[x] by {
        assert forall|j: int| 0 <= j < q.done.len() implies !in_slot(
            w,
            (#[trigger] q.done[j]).slot,
            x,
        ) by {
            let y = granted(all, answers, n)[j];
            assert(all.contains(y));
            let i = choose|i: int| 0 <= i < all.len() && all[i] == y;
            assert(in_slot(w, all[i].slot, x) ==> !walk_reads(m, w, p, x));
        }
    }
    law_walk_depends_on_reads(m, q.image, w, p);
    assert forall|j: int, x: int|
        0 <= j < sites(q.image, w, p).len() && in_slot(
            w,
            (#[trigger] sites(q.image, w, p)[j]).slot,
            x,
        ) implies !(#[trigger] walk_reads(q.image, w, p, x)) by {
        lemma_reads_agree(m, q.image, w, p, x);
        assert(in_slot(w, all[j].slot, x));
        assert(!walk_reads(m, w, p, x));
    }
    lemma_unread_is_separated(q.image, w, p);
    law_answers_decide(q.image, w, hooks, d, again);
    assert forall|j: int| 0 <= j < all.len() && j < again.len() && again[j] implies word_at(
        q.image,
        w,
        (#[trigger] all[j]).slot,
    ) == hooks.of(all[j].api) by {}
    lemma_again(q.image, w, hooks, d, again, again.len() as int);
    assert(again.take(again.len() as int) =~= again);
}

/// What is remembered for a function is the former value of the slot that was redirected last for it,
/// and zero if none was.
pub proof fn law_last_redirection_is_remembered(done: Seq<Redirection>, a: ConsoleApi)
    ensures
        (forall|j: int| 0 <= j < done.len() ==> (#[trigger] done[j]).api != a) ==> original_of(
            done,
            a,
        ) == 0,
        forall|j: int|
            0 <= j < done.len() && (#[trigger] done[j]).api == a && (forall|i: int|
                j < i < done.len() ==> (#[trigger] done[i]).api != a) ==> original_of(done, a)
                == done[j].original,
{
    if forall|j: int| 0 <= j < done.len() ==> (#[trigger] done[j]).api != a {
        lemma_nothing_remembered(done, a);
    }
    assert forall|j: int|
        0 <= j < done.len() && (#[trigger] done[j]).api == a && (forall|i: int|
            j < i < done.len() ==> (#[trigger] done[i]).api != a) implies original_of(done, a)
        == done[j].original by {
        lemma_original_of_last(done, j);
    }
}

proof fn lemma_nothing_remembered(done: Seq<Redirection>, a: ConsoleApi)
    requires
        forall|j: int| 0 <= j < done.len() ==> (#[trigger] done[j]).api != a,
    ensures
        original_of(done, a) == 0,
    decreases done.len(),
{
    if done.len() > 0 {
        assert(done[done.len() - 1].api != a);
        assert forall|j: int| 0 <= j < done.len() - 1 implies (#[trigger] done.drop_last()[j]).api
            != a by {
            assert(done[j].api != a);
        }
        lemma_nothing_remembered(done.drop_last(), a);
    }
}

/// An installation that gets no answer has done nothing, and an answer is either used for the next
/// import or for nothing: a grant stores the address of the hook in the slot and remembers what stood
/// there, and a refusal changes no byte.
pub proof fn law_each_answer_is_for_one_slot(
    p: Progress,
    w: Width,
    hooks: ApiTable,
    answers: Seq<bool>,
    granted: bool,
)
    requires
        forall|a: ConsoleApi| #[trigger] hooks.of(a) < w.limit(),
    ensures
        run(p, w, hooks, Seq::empty()) == p,
        ({
            let before = run(p, w, hooks, answers);
            let now = run(p, w, hooks, answers.push(granted));
            match find_next(before.image, w, before.place) {
                Find::Import { slot, api, resume } => {
                    &&& now.place == resume
                    &&& !granted ==> now.image == before.image && now.done == before.done
                    &&& granted ==> {
                        &&& word_at(now.image, w, slot) == hooks.of(api)
                        &&& now.image.len() == before.image.len()
                        &&& forall|x: int|
                            0 <= x < before.image.len() && !(slot <= x < slot + w.size())
                                ==> #[trigger] now.image[x] == before.image[x]
                        &&& now.done.len() == before.done.len() + 1
                        &&& now.done.drop_last() == before.done
                        &&& now.done.last().slot == slot
                        &&& now.done.last().api == api
                        &&& now.done.last().original == word_at(before.image, w, slot)
                    }
                },
                _ => now == before,
            }
        }),
{
    let before = run(p, w, hooks, answers);
    let now = run(p, w, hooks, answers.push(granted));
    assert(answers.push(granted).drop_last() =~= answers);
    law_walk_advances(before.image, w, before.place);
    if let Find::Import { slot, api, .. } = find_next(before.image, w, before.place) {
        if granted {
            lemma_word_round_trip(before.image, w, slot, hooks.of(api) as int);
            assert(now.done.drop_last() =~= before.done);
        }
    }
}

} // verus!
