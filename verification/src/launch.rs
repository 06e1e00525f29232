//! Starting the server.
//!
//! The launcher finds the game root, loads `dedicated.dll` from there, installs the console hooks
//! and calls `DedicatedMain`. [`Launcher`] decides after each of these steps what is reported and
//! what is done next; the program around it carries the steps out.
use crate::memory::Width;
use crate::paths::{directory, is_below, is_file_path, is_verbatim, join_text, parent_text};
use crate::text::{
    decimal, denotes, hex, hex8, law_numeral_reads_back, law_padded_numeral_reads_back, numeral,
    zero_padded,
};
use vstd::prelude::*;
use vstd::string::{StringExecFns, StringSliceAdditionalSpecFns};
use vstd::utf8::{decode_utf8, encode_utf8, valid_utf8};

verus! {

/// The architecture that the launcher was built for.
#[derive(Clone, Copy, PartialEq, Eq, Structural, Debug)]
pub enum Arch {
    X86,
    X64,
}

impl Arch {
    /// The name of the architecture.
    pub open spec fn label_chars(self) -> Seq<char> {
        match self {
            Arch::X86 => "x86"@,
            Arch::X64 => "x64"@,
        }
    }

    /// The directory of the server's modules, relative to the game root.
    pub open spec fn bin_chars(self) -> Seq<char> {
        match self {
            Arch::X86 => "bin"@,
            Arch::X64 => "bin\\win64"@,
        }
    }

    /// The path of the server module, relative to the game root.
    pub open spec fn module_chars(self) -> Seq<char> {
        match self {
            Arch::X86 => "bin\\dedicated.dll"@,
            Arch::X64 => "bin\\win64\\dedicated.dll"@,
        }
    }

    /// Gives the name of the architecture.
    pub fn label(self) -> (r: &'static str)
        ensures
            r@ == self.label_chars(),
    {
        match self {
            Arch::X86 => "x86",
            Arch::X64 => "x64",
        }
    }

    /// Gives the directory of the server's modules, relative to the game root.
    pub fn bin_subdir(self) -> (r: &'static str)
        ensures
            r@ == self.bin_chars(),
    {
        match self {
            Arch::X86 => "bin",
            Arch::X64 => "bin\\win64",
        }
    }

    /// Gives the path of the server module, relative to the game root.
    pub fn dll_path(self) -> (r: &'static str)
        ensures
            r@ == self.module_chars(),
    {
        match self {
            Arch::X86 => "bin\\dedicated.dll",
            Arch::X64 => "bin\\win64\\dedicated.dll",
        }
    }

    /// Gives the pointer width of the server's modules.
    pub fn width(self) -> (r: Width)
        ensures
            r == match self {
                Arch::X86 => Width::Bits32,
                Arch::X64 => Width::Bits64,
            },
    {
        match self {
            Arch::X86 => Width::Bits32,
            Arch::X64 => Width::Bits64,
        }
    }
}

/// The module lies in the directory of the server's modules.
pub proof fn law_module_is_in_bin(arch: Arch)
    ensures
        arch.module_chars() == arch.bin_chars() + "\\dedicated.dll"@,
{
    reveal_strlit("bin");
    reveal_strlit("bin\\win64");
    reveal_strlit("bin\\dedicated.dll");
    reveal_strlit("bin\\win64\\dedicated.dll");
    reveal_strlit("\\dedicated.dll");
    assert(arch.module_chars() =~= arch.bin_chars() + "\\dedicated.dll"@);
}

/// Why the game root could not be found.
#[derive(Clone, Copy, PartialEq, Eq, Structural, Debug)]
pub enum RootError {
    /// The system did not give the path of the executable.
    NoFileName,
    /// The path of the executable is not valid UTF-8.
    NotUtf8,
    /// The path of the executable has no parent.
    NoParent,
}

impl RootError {
    /// The message for the error.
    pub open spec fn message_chars(self) -> Seq<char> {
        match self {
            RootError::NoFileName => "[srcds_console] Error: GetModuleFileNameA failed"@,
            RootError::NotUtf8 => "[srcds_console] Error: exe path is not valid UTF-8"@,
            RootError::NoParent =>
                "[srcds_console] Error: cannot determine game root from exe path"@,
        }
    }

    /// Gives the message for the error.
    pub fn message(self) -> (r: &'static str)
        ensures
            r@ == self.message_chars(),
    {
        match self {
            RootError::NoFileName => "[srcds_console] Error: GetModuleFileNameA failed",
            RootError::NotUtf8 => "[srcds_console] Error: exe path is not valid UTF-8",
            RootError::NoParent =>
                "[srcds_console] Error: cannot determine game root from exe path",
        }
    }
}

/// Calls `std::str::from_utf8`: the bytes are a string exactly if they are valid UTF-8, and the string
/// has these bytes.
#[verifier::external_body]
fn utf8_text(bytes: &[u8]) -> (r: Option<&str>)
    ensures
        r is Some <==> valid_utf8(bytes@),
        r matches Some(text) ==> text.spec_bytes() == bytes@,
{
    std::str::from_utf8(bytes).ok()
}

/// The path of the executable that the first `len` bytes of a buffer hold.
pub open spec fn exe_path_of(buffer: Seq<u8>, len: int) -> Result<Seq<char>, RootError> {
    if len == 0 {
        Err(RootError::NoFileName)
    } else if valid_utf8(buffer.take(len)) {
        Ok(decode_utf8(buffer.take(len)))
    } else {
        Err(RootError::NotUtf8)
    }
}

/// Gives the path of the executable, where the system has stored `len` bytes in the buffer. A system
/// that stores none has failed.
pub fn exe_path(buffer: &[u8], len: u32) -> (r: Result<String, RootError>)
    requires
        len <= buffer@.len(),
    ensures
        match exe_path_of(buffer@, len as int) {
            Ok(path) => r matches Ok(text) && text@ == path,
            Err(e) => r matches Err(error) && error == e,
        },
        r matches Ok(text) ==> encode_utf8(text@) == buffer@.take(len as int),
        len == 0 <==> (r matches Err(error) && error == RootError::NoFileName),
        len > 0 && valid_utf8(buffer@.take(len as int)) <==> r is Ok,
        len > 0 && !valid_utf8(buffer@.take(len as int)) <==> (r matches Err(error) && error
            == RootError::NotUtf8),
{
    if len == 0 {
        return Err(RootError::NoFileName);
    }
    let bytes: &[u8] = &buffer[0..len as usize];
    assert(bytes@ =~= buffer@.take(len as int));
    match utf8_text(bytes) {
        Some(text) => {
            proof {
                vstd::utf8::encode_utf8_decode_utf8(text@);
            }
            Ok(text.to_owned())
        },
        None => Err(RootError::NotUtf8),
    }
}

/// Gives the game root: the parent of the path of the executable, which must have one.
pub fn game_root(parent: Option<&str>) -> (r: Result<String, RootError>)
    ensures
        match parent {
            Some(p) => r matches Ok(root) && root@ == p@,
            None => r matches Err(error) && error == RootError::NoParent,
        },
{
    match parent {
        Some(p) => Ok(p.to_owned()),
        None => Err(RootError::NoParent),
    }
}

/// Gives the game root, where the system has stored `len` bytes of the path of the executable in the
/// buffer. It is the directory of the executable, by what separates the components of a path on Unix
/// or by what does on Windows, for the path of a file in an ordinary form. For any other path it is at
/// least a proper beginning of the path, and an executable that has no directory has no game root.
pub fn get_game_root(buffer: &[u8], len: u32) -> (r: Result<String, RootError>)
    requires
        len <= buffer@.len(),
    ensures
        match exe_path_of(buffer@, len as int) {
            Ok(path) => {
                &&& match r {
                    Ok(root) => root@.len() < path.len() && root@ == path.take(root@.len() as int),
                    Err(error) => error == RootError::NoParent,
                }
                &&& is_file_path(path) ==> {
                    &&& r is Ok
                    &&& r->Ok_0@ == directory(path, false) || r->Ok_0@ == directory(path, true)
                }
                &&& path == seq!['/'] ==> r is Err
            },
            Err(e) => r matches Err(error) && error == e,
        },
        len == 0 <==> (r matches Err(error) && error == RootError::NoFileName),
        len > 0 && !valid_utf8(buffer@.take(len as int)) <==> (r matches Err(error) && error
            == RootError::NotUtf8),
        forall|path: Seq<char>|
            len > 0 && #[trigger] encode_utf8(path) == buffer@.take(len as int) ==> {
                &&& match r {
                    Ok(root) => root@.len() < path.len() && root@ == path.take(root@.len() as int),
                    Err(error) => error == RootError::NoParent,
                }
                &&& is_file_path(path) ==> {
                    &&& r is Ok
                    &&& r->Ok_0@ == directory(path, false) || r->Ok_0@ == directory(path, true)
                }
                &&& path == seq!['/'] ==> r is Err
            },
{
    proof {
        assert forall|path: Seq<char>|
            len > 0 && #[trigger] encode_utf8(path) == buffer@.take(len as int) implies exe_path_of(
            buffer@,
            len as int,
        ) == Ok::<Seq<char>, RootError>(path) by {
            law_exe_path_is_all_that_was_stored(buffer@, len as int, path);
        }
    }
    match exe_path(buffer, len) {
        Ok(path) => game_root(parent_text(path.as_str())),
        Err(e) => Err(e),
    }
}

/// Gives the path of the server module in the game root. Nothing is said of a root that begins with
/// `\\?\`.
pub fn dll_path_in(arch: Arch, root: &str) -> (r: String)
    ensures
        !is_verbatim(root@) ==> is_below(r@, root@, arch.module_chars()),
{
    proof {
        reveal_strlit("bin\\dedicated.dll");
        reveal_strlit("bin\\win64\\dedicated.dll");
    }
    join_text(root, arch.dll_path())
}

/// Gives the path of the directory of the server's modules in the game root. Nothing is said of a root
/// that begins with `\\?\`.
pub fn bin_subdir_in(arch: Arch, root: &str) -> (r: String)
    ensures
        !is_verbatim(root@) ==> is_below(r@, root@, arch.bin_chars()),
{
    proof {
        reveal_strlit("bin");
        reveal_strlit("bin\\win64");
    }
    join_text(root, arch.bin_subdir())
}

/// The search path with `dir` before the entries of `current`, which counts as empty if there is none.
pub open spec fn prepended(dir: Seq<char>, current: Option<Seq<char>>) -> Seq<char> {
    dir + ";"@ + match current {
        Some(entries) => entries,
        None => Seq::empty(),
    }
}

/// Gives the search path with `dir` before the entries of `current`.
fn join_path(dir: &str, current: Option<&str>) -> (r: String)
    ensures
        r@ == prepended(
            dir@,
            match current {
                Some(entries) => Some(entries@),
                None => None,
            },
        ),
{
    let mut path: String = String::from_str(dir).concat(";");
    if let Some(entries) = current {
        path.append(entries);
    }
    assert(path@ =~= prepended(
        dir@,
        match current {
            Some(entries) => Some(entries@),
            None => None,
        },
    ));
    path
}

/// Gives the bytes of `text` with a zero byte behind them, unless one of them is zero already.
pub fn c_string(text: &str) -> (r: Option<Vec<u8>>)
    ensures
        r is None <==> encode_utf8(text@).contains(0),
        r matches Some(bytes) ==> bytes@ == encode_utf8(text@).push(0),
{
    let bytes: &[u8] = text.as_bytes();
    let n: usize = bytes.len();
    let mut i: usize = 0;
    while i < n
        invariant
            n == bytes@.len(),
            bytes@ == encode_utf8(text@),
            i <= n,
            forall|j: int| 0 <= j < i ==> bytes@[j] != 0,
        decreases n - i,
    {
        if bytes[i] == 0 {
            assert(bytes@.contains(0)) by {
                assert(bytes@[i as int] == 0);
            }
            return None;
        }
        i = i + 1;
    }
    let mut copy: Vec<u8> = vstd::slice::slice_to_vec(bytes);
    copy.push(0);
    Some(copy)
}

/// Gives the value of the search path with `dir` before the entries of `current`, as a
/// zero-terminated string. A value that would hold a zero byte is refused.
pub fn prepend_path(dir: &str, current: Option<&str>) -> (r: Option<Vec<u8>>)
    ensures
        ({
            let value = encode_utf8(
                prepended(
                    dir@,
                    match current {
                        Some(entries) => Some(entries@),
                        None => None,
                    },
                ),
            );
            if value.contains(0) {
                r is None
            } else {
                r matches Some(bytes) && bytes@ == value.push(0)
            }
        }),
        r matches Some(bytes) ==> bytes@ == encode_utf8(
            dir@.push(';') + match current {
                Some(entries) => entries@,
                None => Seq::empty(),
            },
        ).push(0),
{
    proof {
        reveal_strlit(";");
        assert(prepended(
            dir@,
            match current {
                Some(entries) => Some(entries@),
                None => None,
            },
        ) =~= dir@.push(';') + match current {
            Some(entries) => entries@,
            None => Seq::empty(),
        });
    }
    c_string(join_path(dir, current).as_str())
}

/// Why a path cannot be handed to the system.
#[derive(Clone, Copy, PartialEq, Eq, Structural, Debug)]
pub enum PathError {
    /// The path is not valid UTF-8.
    NotUtf8,
    /// The path holds a zero byte.
    ContainsZero,
}

impl PathError {
    /// The message for the error.
    pub open spec fn message_chars(self) -> Seq<char> {
        match self {
            PathError::NotUtf8 => "[srcds_console] Error: path contains non-UTF8 characters"@,
            PathError::ContainsZero => "[srcds_console] Error: path contains null bytes"@,
        }
    }

    /// Gives the message for the error.
    pub fn message(self) -> (r: &'static str)
        ensures
            r@ == self.message_chars(),
    {
        match self {
            PathError::NotUtf8 => "[srcds_console] Error: path contains non-UTF8 characters",
            PathError::ContainsZero => "[srcds_console] Error: path contains null bytes",
        }
    }
}

/// Gives a path as a zero-terminated string. There is no text for a path that is not valid UTF-8.
pub fn path_to_cstring(path: Option<&str>) -> (r: Result<Vec<u8>, PathError>)
    ensures
        match path {
            None => r matches Err(e) && e == PathError::NotUtf8,
            Some(text) => if encode_utf8(text@).contains(0) {
                r matches Err(e) && e == PathError::ContainsZero
            } else {
                r matches Ok(bytes) && bytes@ == encode_utf8(text@).push(0)
            },
        },
{
    match path {
        None => Err(PathError::NotUtf8),
        Some(text) => match c_string(text) {
            Some(bytes) => Ok(bytes),
            None => Err(PathError::ContainsZero),
        },
    }
}

/// The explanation of a system error code.
pub open spec fn error_explanation(code: u32) -> Seq<char> {
    if code == 0xC1 {
        "  -> ERROR_BAD_EXE_FORMAT: not a valid Win32 application (architecture mismatch?)"@
    } else if code == 0x7E {
        "  -> ERROR_MOD_NOT_FOUND: a dependency DLL was not found. Check that bin\\ directory is correct."@
    } else if code == 0xB7 {
        "  -> ERROR_ALREADY_EXISTS"@
    } else {
        "  -> Windows error code 0x"@ + zero_padded(numeral(code as nat, 16), 8) + " ("@ + numeral(
            code as nat,
            10,
        ) + ")"@
    }
}

/// Gives the explanation of a system error code.
pub fn explain_error(code: u32) -> (r: String)
    ensures
        r@ == error_explanation(code),
{
    if code == 0xC1 {
        String::from_str(
            "  -> ERROR_BAD_EXE_FORMAT: not a valid Win32 application (architecture mismatch?)",
        )
    } else if code == 0x7E {
        String::from_str(
            "  -> ERROR_MOD_NOT_FOUND: a dependency DLL was not found. Check that bin\\ directory is correct.",
        )
    } else if code == 0xB7 {
        String::from_str("  -> ERROR_ALREADY_EXISTS")
    } else {
        String::from_str("  -> Windows error code 0x").concat(hex8(code).as_str()).concat(
            " (",
        ).concat(decimal(code as u64).as_str()).concat(")")
    }
}

/// A step of the launch that the program carries out.
#[derive(Clone, Copy, PartialEq, Eq, Structural, Debug)]
pub enum Action {
    /// Find the game root.
    FindRoot,
    /// Look for the server module in the game root.
    FindModule,
    /// Put the directory of the server's modules first on the search path.
    SetPath,
    /// Load the server module.
    LoadModule,
    /// Install the console hooks on the loaded module.
    InstallHooks,
    /// Find the server's entry point.
    FindEntry,
    /// Call the server's entry point.
    CallEntry,
    /// Leave the program with this code.
    Exit(i32),
}

/// What came of a step.
pub enum Event {
    RootFound,
    RootFailed(RootError),
    ModuleFound,
    /// There is no module at the given path.
    ModuleMissing(String),
    PathSet,
    /// The module's path cannot be handed to the system.
    PathUnusable(PathError),
    /// The system gave this error code.
    LoadFailed(u32),
    /// The module was loaded at this address.
    Loaded(u64),
    /// So many hooks were installed.
    Hooked(u64),
    EntryMissing,
    EntryFound,
    /// The server ended with this code.
    Returned(i32),
}

/// The event can come of the step.
pub open spec fn comes_of(action: Action, event: Event) -> bool {
    match event {
        Event::RootFound => action is FindRoot,
        Event::RootFailed(_) => action is FindRoot,
        Event::ModuleFound => action is FindModule,
        Event::ModuleMissing(_) => action is FindModule,
        Event::PathSet => action is SetPath,
        Event::PathUnusable(_) => action is LoadModule,
        Event::LoadFailed(_) => action is LoadModule,
        Event::Loaded(_) => action is LoadModule,
        Event::Hooked(_) => action is InstallHooks,
        Event::EntryMissing => action is FindEntry,
        Event::EntryFound => action is FindEntry,
        Event::Returned(_) => action is CallEntry,
    }
}

/// The step that follows an event.
pub open spec fn follows(event: Event) -> Action {
    match event {
        Event::RootFound => Action::FindModule,
        Event::RootFailed(_) => Action::Exit(1),
        Event::ModuleFound => Action::SetPath,
        Event::ModuleMissing(_) => Action::Exit(1),
        Event::PathSet => Action::LoadModule,
        Event::PathUnusable(_) => Action::Exit(1),
        Event::LoadFailed(_) => Action::Exit(1),
        Event::Loaded(_) => Action::InstallHooks,
        Event::Hooked(_) => Action::FindEntry,
        Event::EntryMissing => Action::Exit(1),
        Event::EntryFound => Action::CallEntry,
        Event::Returned(code) => Action::Exit(code),
    }
}

/// The lines that report an event.
pub open spec fn report_of(arch: Arch, event: Event) -> Seq<Seq<char>> {
    match event {
        Event::RootFound => seq![],
        Event::RootFailed(e) => seq![e.message_chars()],
        Event::ModuleFound => seq![],
        Event::ModuleMissing(path) => seq![
            "[srcds_console] Error: "@ + path@ + " not found"@,
            "[srcds_console] Make sure this exe is placed in the SRCDS game root."@,
        ],
        Event::PathSet => seq![
            "[srcds_console] Loading "@ + arch.module_chars() + " ("@ + arch.label_chars() + ")"@,
        ],
        Event::PathUnusable(e) => seq![e.message_chars()],
        Event::LoadFailed(code) => seq![
            "[srcds_console] Failed to load "@ + arch.module_chars() + ": error 0x"@ + zero_padded(
                numeral(code as nat, 16),
                8,
            ),
            error_explanation(code),
        ],
        Event::Loaded(address) => seq![
            "[srcds_console] dedicated.dll loaded at 0x"@ + numeral(address as nat, 16),
        ],
        Event::Hooked(count) => seq![
            "[srcds_console] Installed "@ + numeral(count as nat, 10) + " console hooks"@,
        ],
        Event::EntryMissing => seq![
            "[srcds_console] Error: DedicatedMain not found in dedicated.dll"@,
        ],
        Event::EntryFound => seq!["[srcds_console] Calling DedicatedMain..."@, Seq::empty()],
        Event::Returned(_) => seq![],
    }
}

/// The characters of some lines.
pub open spec fn lines_of(lines: Seq<String>) -> Seq<Seq<char>> {
    Seq::new(lines.len(), |i: int| lines[i]@)
}

/// What the program does after an event.
pub struct Reply {
    /// The lines to report.
    pub lines: Vec<String>,
    /// The next step.
    pub action: Action,
}

/// A launch of the server.
pub struct Launcher {
    arch: Arch,
    action: Action,
}

impl Launcher {
    /// The architecture of the launcher.
    pub closed spec fn arch(self) -> Arch {
        self.arch
    }

    /// The step whose outcome is awaited.
    pub closed spec fn awaited(self) -> Action {
        self.action
    }

    /// Starts a launch, with the search for the game root as its first step.
    pub fn new(arch: Arch) -> (r: Launcher)
        ensures
            r.arch() == arch,
            r.awaited() == Action::FindRoot,
    {
        Launcher { arch, action: Action::FindRoot }
    }

    /// Takes what came of the present step, and tells what to report and what to do next.
    pub fn advance(&mut self, event: Event) -> (r: Reply)
        requires
            comes_of(old(self).awaited(), event),
        ensures
            final(self).arch() == old(self).arch(),
            final(self).awaited() == follows(event),
            r.action == follows(event),
            lines_of(r.lines@) == report_of(old(self).arch(), event),
    {
        let ghost told = event;
        let mut lines: Vec<String> = Vec::new();
        let action: Action = match event {
            Event::RootFound => Action::FindModule,
            Event::RootFailed(e) => {
                lines.push(String::from_str(e.message()));
                Action::Exit(1)
            },
            Event::ModuleFound => Action::SetPath,
            Event::ModuleMissing(path) => {
                lines.push(
                    String::from_str("[srcds_console] Error: ").concat(path.as_str()).concat(
                        " not found",
                    ),
                );
                lines.push(
                    String::from_str(
                        "[srcds_console] Make sure this exe is placed in the SRCDS game root.",
                    ),
                );
                Action::Exit(1)
            },
            Event::PathSet => {
                lines.push(
                    String::from_str("[srcds_console] Loading ").concat(
                        self.arch.dll_path(),
                    ).concat(" (").concat(self.arch.label()).concat(")"),
                );
                Action::LoadModule
            },
            Event::PathUnusable(e) => {
                lines.push(String::from_str(e.message()));
                Action::Exit(1)
            },
            Event::LoadFailed(code) => {
                lines.push(
                    String::from_str("[srcds_console] Failed to load ").concat(
                        self.arch.dll_path(),
                    ).concat(": error 0x").concat(hex8(code).as_str()),
                );
                lines.push(explain_error(code));
                Action::Exit(1)
            },
            Event::Loaded(address) => {
                lines.push(
                    String::from_str("[srcds_console] dedicated.dll loaded at 0x").concat(
                        hex(address).as_str(),
                    ),
                );
                Action::InstallHooks
            },
            Event::Hooked(count) => {
                lines.push(
                    String::from_str("[srcds_console] Installed ").concat(
                        decimal(count).as_str(),
                    ).concat(" console hooks"),
                );
                Action::FindEntry
            },
            Event::EntryMissing => {
                lines.push(
                    String::from_str(
                        "[srcds_console] Error: DedicatedMain not found in dedicated.dll",
                    ),
                );
                Action::Exit(1)
            },
            Event::EntryFound => {
                lines.push(String::from_str("[srcds_console] Calling DedicatedMain..."));
                lines.push(String::new());
                Action::CallEntry
            },
            Event::Returned(code) => Action::Exit(code),
        };
        self.action = action;
        assert(lines_of(lines@) =~= report_of(self.arch, told));
        Reply { lines, action }
    }
}

/// The step that is awaited after a launch has seen the given events.
pub open spec fn awaited_after(events: Seq<Event>) -> Action {
    if events.len() == 0 {
        Action::FindRoot
    } else {
        follows(events.last())
    }
}

/// Each event can come of the step that was awaited when it occurred.
pub open spec fn is_launch(events: Seq<Event>) -> bool {
    forall|i: int|
        0 <= i < events.len() ==> comes_of(awaited_after(events.take(i)), #[trigger] events[i])
}

/// How many steps come before this one in a launch that succeeds.
pub open spec fn depth(action: Action) -> int {
    match action {
        Action::FindRoot => 0,
        Action::FindModule => 1,
        Action::SetPath => 2,
        Action::LoadModule => 3,
        Action::InstallHooks => 4,
        Action::FindEntry => 5,
        Action::CallEntry => 6,
        Action::Exit(_) => 7,
    }
}

/// A launch that goes on has seen one event for each step before the present one.
proof fn lemma_depth(events: Seq<Event>)
    requires
        is_launch(events),
    ensures
        events.len() <= 7,
        !(awaited_after(events) is Exit) ==> depth(awaited_after(events)) == events.len(),
    decreases events.len(),
{
    if events.len() > 0 {
        let before = events.drop_last();
        assert(before =~= events.take(events.len() - 1));
        lemma_launch_prefix(events, events.len() - 1);
        lemma_depth(before);
        assert(comes_of(awaited_after(before), events[events.len() - 1]));
    }
}

/// The beginning of a launch is a launch.
proof fn lemma_launch_prefix(events: Seq<Event>, n: int)
    requires
        is_launch(events),
        0 <= n <= events.len(),
    ensures
        is_launch(events.take(n)),
{
    assert forall|i: int| 0 <= i < n implies comes_of(
        awaited_after(events.take(n).take(i)),
        #[trigger] events.take(n)[i],
    ) by {
        assert(events.take(n).take(i) =~= events.take(i));
        assert(comes_of(awaited_after(events.take(i)), events[i]));
    }
}

/// The server is called only after the game root and the module were found, the search path was set,
/// the module was loaded, the hooks were installed on it and the entry point was found, in this
/// order and with nothing in between.
pub proof fn law_hooks_come_before_the_server(events: Seq<Event>)
    requires
        is_launch(events),
        awaited_after(events) is CallEntry,
    ensures
        events.len() == 6,
        events[0] is RootFound,
        events[1] is ModuleFound,
        events[2] is PathSet,
        events[3] is Loaded,
        events[4] is Hooked,
        events[5] is EntryFound,
{
    lemma_depth(events);
    assert forall|i: int| 0 <= i < 6 implies depth(follows(#[trigger] events[i])) == i + 1 by {
        let seen = events.take(i + 1);
        lemma_launch_prefix(events, i + 1);
        lemma_depth(seen);
        assert(seen.last() == events[i]);
        if i < 5 {
            assert(comes_of(awaited_after(seen), events[i + 1]));
        } else {
            assert(seen =~= events);
        }
    }
    assert(depth(follows(events[0])) == 1);
    assert(depth(follows(events[1])) == 2);
    assert(depth(follows(events[2])) == 3);
    assert(depth(follows(events[3])) == 4);
    assert(depth(follows(events[4])) == 5);
    assert(depth(follows(events[5])) == 6);
}

/// A launch comes to an end after at most seven events. It leaves the program with code 1, unless
/// the server was called and ended with a code of its own.
pub proof fn law_launch_ends(events: Seq<Event>)
    requires
        is_launch(events),
    ensures
        events.len() <= 7,
        awaited_after(events) matches Action::Exit(code) ==> {
            ||| code == 1
            ||| events.last() == Event::Returned(code)
        },
{
    lemma_depth(events);
}

/// The path of the executable is all that the system has stored, and nothing else: the text that
/// encodes to the first `len` bytes of the buffer. There is none if the system stored nothing, or if
/// no text encodes to those bytes.
pub proof fn law_exe_path_is_all_that_was_stored(buffer: Seq<u8>, len: int, path: Seq<char>)
    requires
        0 <= len <= buffer.len(),
    ensures
        exe_path_of(buffer, len) == Ok::<Seq<char>, RootError>(path) <==> len > 0 && encode_utf8(path)
            == buffer.take(len),
        exe_path_of(buffer, len) == Err::<Seq<char>, RootError>(RootError::NoFileName) <==> len == 0,
        exe_path_of(buffer, len) == Err::<Seq<char>, RootError>(RootError::NotUtf8) ==> encode_utf8(
            path,
        ) != buffer.take(len),
        exe_path_of(buffer, len) == Err::<Seq<char>, RootError>(RootError::NotUtf8) <==> len > 0
            && !valid_utf8(buffer.take(len)),
{
    vstd::utf8::encode_utf8_decode_utf8(path);
    vstd::utf8::encode_utf8_valid_utf8(path);
    if valid_utf8(buffer.take(len)) {
        vstd::utf8::decode_utf8_encode_utf8(buffer.take(len));
    }
}

/// The directory comes first on the search path: the value begins with it, a semicolon stands behind
/// it, and what follows is the former value as it was, or nothing if there was none.
pub proof fn law_directory_comes_first_on_the_path(dir: Seq<char>, current: Option<Seq<char>>)
    ensures
        ({
            let value = prepended(dir, current);
            &&& value.len() > dir.len()
            &&& value.take(dir.len() as int) == dir
            &&& value[dir.len() as int] == ';'
            &&& current matches Some(entries) ==> value.skip(dir.len() as int + 1) == entries
            &&& current is None ==> value.len() == dir.len() + 1
        }),
{
    reveal_strlit(";");
    let value = prepended(dir, current);
    assert(value.take(dir.len() as int) =~= dir);
    match current {
        Some(entries) => {
            assert(value.skip(dir.len() as int + 1) =~= entries);
        },
        None => {},
    }
}

/// The event tells that a step failed.
pub open spec fn is_failure(event: Event) -> bool {
    ||| event is RootFailed
    ||| event is ModuleMissing
    ||| event is PathUnusable
    ||| event is LoadFailed
    ||| event is EntryMissing
}

/// A launch leaves the program with the server's own code if the server ended, with code 1 if a step
/// failed, and goes on otherwise.
pub proof fn law_launch_ends_with_its_last_event(events: Seq<Event>)
    requires
        events.len() > 0,
    ensures
        forall|code: i32|
            events.last() == Event::Returned(code) ==> awaited_after(events) == Action::Exit(code),
        is_failure(events.last()) ==> awaited_after(events) == Action::Exit(1),
        !is_failure(events.last()) && !(events.last() is Returned) ==> !(awaited_after(
            events,
        ) is Exit),
        forall|code: i32|
            awaited_after(events) == Action::Exit(code) ==> events.last() == Event::Returned(code) || (
            code == 1 && is_failure(events.last())),
{
}

/// A launch in which every step succeeds goes through all of them, in their order, and leaves the
/// program with the code that the server ended with, whatever this is.
pub proof fn law_launch_goes_through_all_steps(address: u64, count: u64, code: i32)
    ensures
        ({
            let events = seq![
                Event::RootFound,
                Event::ModuleFound,
                Event::PathSet,
                Event::Loaded(address),
                Event::Hooked(count),
                Event::EntryFound,
                Event::Returned(code),
            ];
            &&& is_launch(events)
            &&& awaited_after(events.take(0)) is FindRoot
            &&& awaited_after(events.take(1)) is FindModule
            &&& awaited_after(events.take(2)) is SetPath
            &&& awaited_after(events.take(3)) is LoadModule
            &&& awaited_after(events.take(4)) is InstallHooks
            &&& awaited_after(events.take(5)) is FindEntry
            &&& awaited_after(events.take(6)) is CallEntry
            &&& awaited_after(events) == Action::Exit(code)
        }),
{
    let events = seq![
        Event::RootFound,
        Event::ModuleFound,
        Event::PathSet,
        Event::Loaded(address),
        Event::Hooked(count),
        Event::EntryFound,
        Event::Returned(code),
    ];
    assert(events.take(1).last() == events[0]);
    assert(events.take(2).last() == events[1]);
    assert(events.take(3).last() == events[2]);
    assert(events.take(4).last() == events[3]);
    assert(events.take(5).last() == events[4]);
    assert(events.take(6).last() == events[5]);
}

/// Every step can fail in its own ways and in no others, with any error, path or code. No event can
/// come of a launch that has left the program.
pub proof fn law_what_can_come_of_a_step(
    action: Action,
    event: Event,
    root: RootError,
    path: PathError,
    text: String,
    error: u32,
    code: i32,
)
    ensures
        comes_of(Action::FindRoot, Event::RootFailed(root)),
        comes_of(Action::FindModule, Event::ModuleMissing(text)),
        comes_of(Action::LoadModule, Event::PathUnusable(path)),
        comes_of(Action::LoadModule, Event::LoadFailed(error)),
        comes_of(Action::FindEntry, Event::EntryMissing),
        comes_of(Action::CallEntry, Event::Returned(code)),
        action is Exit ==> !comes_of(action, event),
        action is SetPath || action is InstallHooks || action is CallEntry ==> !(comes_of(
            action,
            event,
        ) && is_failure(event)),
{
}

/// An error that is not explained in words is given by its code, which can be read back from both of
/// the numbers in the text: eight or more hexadecimal digits, and the decimal digits.
pub proof fn law_error_codes_are_given(code: u32)
    ensures
        code != 0xC1 && code != 0x7E && code != 0xB7 ==> exists|hexadecimal: Seq<char>, digits: Seq<
            char,
        >|
            #![trigger denotes(hexadecimal, code as int, 16), denotes(digits, code as int, 10)]
            {
                &&& denotes(hexadecimal, code as int, 16)
                &&& hexadecimal.len() >= 8
                &&& denotes(digits, code as int, 10)
                &&& error_explanation(code) == "  -> Windows error code 0x"@ + hexadecimal + " ("@
                    + digits + ")"@
            },
        error_explanation(0xC1)
            == "  -> ERROR_BAD_EXE_FORMAT: not a valid Win32 application (architecture mismatch?)"@,
        error_explanation(0x7E)
            == "  -> ERROR_MOD_NOT_FOUND: a dependency DLL was not found. Check that bin\\ directory is correct."@,
        error_explanation(0xB7) == "  -> ERROR_ALREADY_EXISTS"@,
{
    law_padded_numeral_reads_back(code as nat, 16, 8);
    law_numeral_reads_back(code as nat, 10);
    let hexadecimal = zero_padded(numeral(code as nat, 16), 8);
    let digits = numeral(code as nat, 10);
    assert(denotes(hexadecimal, code as int, 16));
    assert(denotes(digits, code as int, 10));
}

/// What is reported of a step tells what came of it: the path of a module that is missing, the module
/// that is loaded and the architecture, the code of an error with its explanation, the address of the
/// module, and the number of hooks.
pub proof fn law_reports_tell_what_happened(
    arch: Arch,
    path: String,
    code: u32,
    address: u64,
    count: u64,
)
    ensures
        ({
            let lines = report_of(arch, Event::ModuleMissing(path));
            &&& lines.len() == 2
            &&& lines[0] == "[srcds_console] Error: "@ + path@ + " not found"@
            &&& lines[1] == "[srcds_console] Make sure this exe is placed in the SRCDS game root."@
        }),
        report_of(arch, Event::EntryMissing) == seq![
            "[srcds_console] Error: DedicatedMain not found in dedicated.dll"@,
        ],
        report_of(arch, Event::EntryFound) == seq![
            "[srcds_console] Calling DedicatedMain..."@,
            Seq::<char>::empty(),
        ],
        ({
            let lines = report_of(arch, Event::PathSet);
            &&& lines.len() == 1
            &&& arch is X86 ==> lines[0] == "[srcds_console] Loading "@ + "bin\\dedicated.dll"@ + " ("@
                + "x86"@ + ")"@
            &&& arch is X64 ==> lines[0] == "[srcds_console] Loading "@
                + "bin\\win64\\dedicated.dll"@ + " ("@ + "x64"@ + ")"@
        }),
        ({
            let lines = report_of(arch, Event::LoadFailed(code));
            &&& lines.len() == 2
            &&& exists|digits: Seq<char>| #[trigger]
                denotes(digits, code as int, 16) && digits.len() >= 8 && lines[0]
                    == "[srcds_console] Failed to load "@ + arch.module_chars() + ": error 0x"@ + digits
            &&& lines[1] == error_explanation(code)
        }),
        ({
            let lines = report_of(arch, Event::Loaded(address));
            &&& lines.len() == 1
            &&& exists|digits: Seq<char>| #[trigger]
                denotes(digits, address as int, 16) && lines[0]
                    == "[srcds_console] dedicated.dll loaded at 0x"@ + digits
        }),
        ({
            let lines = report_of(arch, Event::Hooked(count));
            &&& lines.len() == 1
            &&& exists|digits: Seq<char>| #[trigger]
                denotes(digits, count as int, 10) && lines[0] == "[srcds_console] Installed "@ + digits
                    + " console hooks"@
        }),
{
    law_padded_numeral_reads_back(code as nat, 16, 8);
    law_numeral_reads_back(address as nat, 16);
    law_numeral_reads_back(count as nat, 10);
    assert(denotes(zero_padded(numeral(code as nat, 16), 8), code as int, 16));
    assert(denotes(numeral(address as nat, 16), address as int, 16));
    assert(denotes(numeral(count as nat, 10), count as int, 10));
}

/// A step that fails is reported, and so is each error of its own kind by a message of its own.
pub proof fn law_failures_are_reported(arch: Arch, event: Event)
    ensures
        is_failure(event) ==> report_of(arch, event).len() > 0,
        event matches Event::RootFailed(e) ==> report_of(arch, event) == seq![e.message_chars()],
        event matches Event::PathUnusable(e) ==> report_of(arch, event) == seq![e.message_chars()],
        event is Returned || event is RootFound || event is ModuleFound ==> report_of(
            arch,
            event,
        ).len() == 0,
{
}

} // verus!
