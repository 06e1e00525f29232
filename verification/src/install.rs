//! Redirecting the console functions that a module imports.
//!
//! An installation walks the import tables and stops at every address slot of a redirected function.
//! The slot's memory has to be made writable before the slot can be changed, and the system may
//! refuse; so the installation is resumed with the answer. [`Installer`] is that installation, one
//! stop at a time. [`install_console_hooks`] runs it to its end on a module that is held in memory.
use crate::api::{save_original, ApiTable, ConsoleApi};
use crate::imports::{
    find_import_directory, find_next, import_directory, next_import, Cursor, Find, HeaderError,
    Place, Site, Stop,
};
use crate::memory::{in_image, read_word, with_word, word_at, write_word, Width};
use vstd::prelude::*;
use vstd::string::StringExecFns;

verus! {

/// An address slot that was redirected, and what it held before.
#[derive(Clone, Copy, Debug)]
pub struct Patch {
    pub slot: u64,
    pub api: ConsoleApi,
    pub original: u64,
}

/// An address slot that was redirected, in mathematical integers.
pub struct Redirection {
    pub slot: int,
    pub api: ConsoleApi,
    pub original: int,
}

impl View for Patch {
    type V = Redirection;

    open spec fn view(&self) -> Redirection {
        Redirection { slot: self.slot as int, api: self.api, original: self.original as int }
    }
}

/// How far an installation has come.
pub struct Progress {
    /// The bytes of the module.
    pub image: Seq<u8>,
    /// Where the walk stands.
    pub place: Place,
    /// The slots that were redirected, in the order in which it was done.
    pub done: Seq<Redirection>,
}

/// An installation on the module `m` whose first import descriptor stands at `d`.
pub open spec fn begin(m: Seq<u8>, d: int) -> Progress {
    Progress { image: m, place: Place::Descriptor(d), done: Seq::empty() }
}

/// The installation behind its next stop. If the slot can be written, it receives the address that
/// `hooks` gives for the function; in either case the walk goes on behind the slot. An installation
/// that has come to its end stays as it is.
pub open spec fn attempt(p: Progress, w: Width, hooks: ApiTable, granted: bool) -> Progress {
    match find_next(p.image, w, p.place) {
        Find::Import { slot, api, resume } => if granted {
            Progress {
                image: with_word(p.image, w, slot, hooks.of(api) as int),
                place: resume,
                done: p.done.push(
                    Redirection { slot, api, original: word_at(p.image, w, slot) },
                ),
            }
        } else {
            Progress { image: p.image, place: resume, done: p.done }
        },
        _ => p,
    }
}

/// The installation after the given answers, one for each stop.
pub open spec fn run(p: Progress, w: Width, hooks: ApiTable, answers: Seq<bool>) -> Progress
    decreases answers.len(),
{
    if answers.len() == 0 {
        p
    } else {
        attempt(run(p, w, hooks, answers.drop_last()), w, hooks, answers.last())
    }
}

/// What the slot of the function `a` held before it was last redirected; zero if it never was.
pub open spec fn original_of(done: Seq<Redirection>, a: ConsoleApi) -> int
    decreases done.len(),
{
    if done.len() == 0 {
        0
    } else if done.last().api == a {
        done.last().original
    } else {
        original_of(done.drop_last(), a)
    }
}

/// The redirected slots in mathematical integers.
pub open spec fn redirections(patches: Seq<Patch>) -> Seq<Redirection> {
    Seq::new(patches.len(), |i: int| patches[i]@)
}

/// An installation of console hooks on a module.
pub struct Installer {
    width: Width,
    hooks: ApiTable,
    cursor: Cursor,
    patches: Vec<Patch>,
    originals: ApiTable,
}

impl Installer {
    /// The pointer width of the module.
    pub closed spec fn width(self) -> Width {
        self.width
    }

    /// The addresses that the slots receive.
    pub closed spec fn hooks(self) -> ApiTable {
        self.hooks
    }

    /// Where the walk stands.
    pub closed spec fn place(self) -> Place {
        self.cursor@
    }

    /// The slots that were redirected, in the order in which it was done.
    pub closed spec fn done(self) -> Seq<Redirection> {
        redirections(self.patches@)
    }

    /// The remembered originals are those of the redirected slots.
    pub closed spec fn wf(self) -> bool {
        forall|a: ConsoleApi|
            #[trigger] self.originals.of(a) == original_of(redirections(self.patches@), a)
    }

    /// Starts an installation at the first import descriptor of a module.
    pub fn start(image: &[u8], width: Width, hooks: ApiTable) -> (r: Result<Installer, HeaderError>)
        ensures
            match import_directory(image@, width) {
                Ok(d) => {
                    &&& r matches Ok(installer)
                    &&& installer.wf()
                    &&& installer.width() == width
                    &&& installer.hooks() == hooks
                    &&& installer.place() == Place::Descriptor(d)
                    &&& installer.done() == Seq::<Redirection>::empty()
                },
                Err(e) => r matches Err(error) && error == e,
            },
    {
        match find_import_directory(image, width) {
            Ok(d) => {
                let installer: Installer = Installer {
                    width,
                    hooks,
                    cursor: Cursor::Descriptor(d as u64),
                    patches: Vec::new(),
                    originals: ApiTable::zeroed(),
                };
                assert(installer.done() =~= Seq::<Redirection>::empty());
                Ok(installer)
            },
            Err(e) => Err(e),
        }
    }

    /// Walks on to the next address slot of a redirected function. The walk is then behind that
    /// slot, whatever becomes of it.
    pub fn next(&mut self, image: &[u8]) -> (r: Stop)
        requires
            old(self).wf(),
        ensures
            final(self).wf(),
            final(self).width() == old(self).width(),
            final(self).hooks() == old(self).hooks(),
            final(self).done() == old(self).done(),
            match find_next(image@, old(self).width(), old(self).place()) {
                Find::Import { slot, api, resume } => {
                    &&& r matches Stop::Import(site)
                    &&& site.slot == slot
                    &&& site.api == api
                    &&& in_image(image@, slot, old(self).width().size())
                    &&& final(self).place() == resume
                },
                Find::Finished => r == Stop::Finished && final(self).place() == Place::End,
                Find::OutsideImage => r == Stop::OutsideImage && final(self).place() == Place::End,
            },
    {
        let (stop, cursor) = next_import(image, self.width, self.cursor);
        self.cursor = cursor;
        stop
    }

    /// Records that the slot at `site` can be written and holds `original`, and gives the address to
    /// write into it.
    pub fn granted(&mut self, site: Site, original: u64) -> (r: u64)
        requires
            old(self).wf(),
        ensures
            final(self).wf(),
            final(self).width() == old(self).width(),
            final(self).hooks() == old(self).hooks(),
            final(self).place() == old(self).place(),
            final(self).done() == old(self).done().push(
                Redirection {
                    slot: site.slot as int,
                    api: site.api,
                    original: original as int,
                },
            ),
            r == old(self).hooks().of(site.api),
    {
        let ghost before = redirections(self.patches@);
        let name: &str = site.api.name();
        proof {
            vstd::utf8::is_ascii_chars_encode_utf8(name@);
        }
        let bytes: &[u8] = name.as_bytes();
        assert(bytes@ =~= site.api.name_bytes());
        save_original(&mut self.originals, bytes, original);
        self.patches.push(Patch { slot: site.slot, api: site.api, original });
        let ghost after = redirections(self.patches@);
        proof {
            assert(after =~= before.push(Patch { slot: site.slot, api: site.api, original }@));
            assert(after.drop_last() =~= before);
            assert forall|a: ConsoleApi| #[trigger] self.originals.of(a) == original_of(after, a) by {
                if a.name_bytes() == site.api.name_bytes() {
                    crate::api::lemma_names_differ(a, site.api);
                }
            }
        }
        self.hooks.get(site.api)
    }

    /// Gives the message for a slot whose memory could not be made writable.
    pub fn refused(&self, site: Site) -> (r: String)
        ensures
            r@ == "[hooks] VirtualProtect failed for "@ + site.api.name_chars(),
    {
        String::from_str("[hooks] VirtualProtect failed for ").concat(site.api.name())
    }

    /// Gives the number of redirected slots.
    pub fn count(&self) -> (r: usize)
        ensures
            r == self.done().len(),
    {
        self.patches.len()
    }

    /// Gives what the slots of each function held before they were redirected.
    pub fn originals(&self) -> (r: ApiTable)
        requires
            self.wf(),
        ensures
            forall|a: ConsoleApi| #[trigger] r.of(a) == original_of(self.done(), a),
    {
        self.originals
    }
}

/// How an installation ended.
#[derive(Clone, Copy, PartialEq, Eq, Structural, Debug)]
pub enum Ending {
    /// The module has no import tables that could be walked.
    Rejected(HeaderError),
    /// Every import was visited.
    Finished,
    /// The walk came to something that lies outside the module.
    OutsideImage,
    /// The walk came to a slot for which there is no answer.
    Waiting,
}

/// What an installation did.
#[derive(Clone, Copy, Debug)]
pub struct Report {
    /// The number of redirected slots.
    pub count: usize,
    /// What the slots of each function held before they were redirected.
    pub originals: ApiTable,
    pub ending: Ending,
}

/// How the installation `p` ends if it gets no further answer.
pub open spec fn ending_of(p: Progress, w: Width) -> Ending {
    match find_next(p.image, w, p.place) {
        Find::Import { .. } => Ending::Waiting,
        Find::Finished => Ending::Finished,
        Find::OutsideImage => Ending::OutsideImage,
    }
}

/// An installation that has come to its end takes no further answers.
pub proof fn lemma_ended(p: Progress, w: Width, hooks: ApiTable, answers: Seq<bool>, k: int)
    requires
        0 <= k <= answers.len(),
        !(ending_of(run(p, w, hooks, answers.take(k)), w) is Waiting),
    ensures
        run(p, w, hooks, answers) == run(p, w, hooks, answers.take(k)),
    decreases answers.len(),
{
    if k == answers.len() {
        assert(answers.take(k) =~= answers);
    } else {
        assert(answers.drop_last().take(k) =~= answers.take(k));
        lemma_ended(p, w, hooks, answers.drop_last(), k);
    }
}

/// Redirects the console functions that a module in memory imports to the addresses in `hooks`.
/// The slots come up in the order of the import tables, and `answers` tells for each one in turn
/// whether it can be written.
pub fn install_console_hooks(
    image: &mut Vec<u8>,
    width: Width,
    hooks: ApiTable,
    answers: &[bool],
) -> (r: Report)
    ensures
        match import_directory(old(image)@, width) {
            Err(e) => {
                &&& final(image)@ == old(image)@
                &&& r.count == 0
                &&& forall|a: ConsoleApi| #[trigger] r.originals.of(a) == 0
                &&& r.ending == Ending::Rejected(e)
            },
            Ok(d) => {
                let p = run(begin(old(image)@, d), width, hooks, answers@);
                &&& final(image)@ == p.image
                &&& r.count == p.done.len()
                &&& forall|a: ConsoleApi| #[trigger] r.originals.of(a) == original_of(p.done, a)
                &&& r.ending == ending_of(p, width)
            },
        },
{
    let mut installer: Installer = match Installer::start(image.as_slice(), width, hooks) {
        Ok(installer) => installer,
        Err(e) => {
            return Report {
                count: 0,
                originals: ApiTable::zeroed(),
                ending: Ending::Rejected(e),
            };
        },
    };
    let ghost first = begin(image@, import_directory(image@, width)->Ok_0);
    let n: usize = answers.len();
    let mut k: usize = 0;
    loop
        invariant
            n == answers@.len(),
            k <= n,
            installer.wf(),
            installer.width() == width,
            installer.hooks() == hooks,
            import_directory(old(image)@, width) is Ok,
            first == begin(old(image)@, import_directory(old(image)@, width)->Ok_0),
            run(first, width, hooks, answers@.take(k as int)) == (Progress {
                image: image@,
                place: installer.place(),
                done: installer.done(),
            }),
        decreases n - k,
    {
        let ghost now = Progress {
            image: image@,
            place: installer.place(),
            done: installer.done(),
        };
        let stop: Stop = installer.next(image.as_slice());
        let site: Site = match stop {
            Stop::Import(site) => site,
            Stop::Finished => {
                proof {
                    lemma_ended(first, width, hooks, answers@, k as int);
                }
                return Report {
                    count: installer.count(),
                    originals: installer.originals(),
                    ending: Ending::Finished,
                };
            },
            Stop::OutsideImage => {
                proof {
                    lemma_ended(first, width, hooks, answers@, k as int);
                }
                return Report {
                    count: installer.count(),
                    originals: installer.originals(),
                    ending: Ending::OutsideImage,
                };
            },
        };
        if k == n {
            assert(answers@.take(k as int) =~= answers@);
            return Report {
                count: installer.count(),
                originals: installer.originals(),
                ending: Ending::Waiting,
            };
        }
        assert(answers@.take(k + 1).drop_last() =~= answers@.take(k as int));
        if answers[k] {
            match read_word(image.as_slice(), width, site.slot) {
                Some(original) => {
                    let hook: u64 = installer.granted(site, original);
                    write_word(image, width, site.slot, hook);
                },
                None => {},
            }
        }
        k = k + 1;
    }
}

} // verus!
