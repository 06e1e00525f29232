use srcds_console::launch::{
    bin_subdir_in, c_string, dll_path_in, exe_path, explain_error, game_root, get_game_root,
    path_to_cstring, prepend_path, Action, Arch, Event, Launcher, PathError, RootError,
};
use srcds_console::memory::Width;
use srcds_console::text::{decimal, hex, hex8};

fn advance(launcher: &mut Launcher, event: Event, lines: &[&str], action: Action) {
    let reply = launcher.advance(event);
    assert_eq!(reply.lines, lines);
    assert_eq!(reply.action, action);
}

/// A launcher that has seen the module being found and the path being set.
fn loading(arch: Arch) -> Launcher {
    let mut launcher = Launcher::new(arch);
    launcher.advance(Event::RootFound);
    launcher.advance(Event::ModuleFound);
    launcher.advance(Event::PathSet);
    launcher
}

#[test]
fn numbers_as_text() {
    assert_eq!(decimal(0), "0");
    assert_eq!(decimal(18446744073709551615), "18446744073709551615");
    assert_eq!(hex(0), "0");
    assert_eq!(hex(0x7ff6_1234_abcd_ef00), "7ff61234abcdef00");
    assert_eq!(hex8(0), "00000000");
    assert_eq!(hex8(0xc1), "000000c1");
    assert_eq!(hex8(0xffff_ffff), "ffffffff");
}

#[test]
fn architecture_decides_the_paths() {
    assert_eq!(Arch::X64.bin_subdir(), "bin\\win64");
    assert_eq!(Arch::X64.dll_path(), "bin\\win64\\dedicated.dll");
    assert_eq!(Arch::X64.label(), "x64");
    assert_eq!(Arch::X64.width(), Width::Bits64);
    assert_eq!(Arch::X86.bin_subdir(), "bin");
    assert_eq!(Arch::X86.dll_path(), "bin\\dedicated.dll");
    assert_eq!(Arch::X86.label(), "x86");
    assert_eq!(Arch::X86.width(), Width::Bits32);
    for arch in [Arch::X86, Arch::X64] {
        assert_eq!(arch.dll_path(), format!("{}\\dedicated.dll", arch.bin_subdir()));
    }
}

#[test]
fn exe_path_is_the_filled_part_of_the_buffer() {
    let mut buffer = [0u8; 260];
    buffer[..11].copy_from_slice("C:\\\u{e9}\\a.exe".as_bytes());
    assert_eq!(exe_path(&buffer, 11), Ok("C:\\\u{e9}\\a.exe".to_string()));
    assert_eq!(exe_path(&buffer, 5), Ok("C:\\\u{e9}".to_string()));
    assert_eq!(exe_path(&buffer, 4), Err(RootError::NotUtf8));
    assert_eq!(exe_path(&buffer, 0), Err(RootError::NoFileName));
    assert_eq!(exe_path(&[0xff; 3], 3), Err(RootError::NotUtf8));
}

#[test]
fn game_root_is_the_parent() {
    assert_eq!(game_root(Some("C:\\game")), Ok("C:\\game".to_string()));
    assert_eq!(game_root(Some("")), Ok(String::new()));
    assert_eq!(game_root(None), Err(RootError::NoParent));
}

#[test]
fn game_root_is_the_directory_of_the_executable() {
    let root = |path: &[u8]| get_game_root(path, path.len() as u32);
    assert_eq!(root(b"/srv/game/srcds.exe"), Ok("/srv/game".to_string()));
    assert_eq!(root(b"game/srcds.exe"), Ok("game".to_string()));
    assert_eq!(root(b"srcds.exe"), Ok(String::new()));
    assert_eq!(root(b"/srcds.exe"), Ok("/".to_string()));
    assert_eq!(root(b"../game/srcds.exe"), Ok("../game".to_string()));
    assert_eq!(root(b"./a//b.c/srcds.exe"), Ok("./a//b.c".to_string()));
    assert_eq!(root(b"/"), Err(RootError::NoParent));
    assert_eq!(root(b""), Err(RootError::NoFileName));
    assert_eq!(root(b"/srv/\xff"), Err(RootError::NotUtf8));
    assert_eq!(get_game_root(b"/srv/game/srcds.exe", 9), Ok("/srv".to_string()));
}

#[test]
fn game_root_follows_the_separators_of_the_platform() {
    let root = |path: &str| get_game_root(path.as_bytes(), path.len() as u32).unwrap();
    let windows = std::path::is_separator('\\');
    for (path, on_unix, on_windows) in [
        ("C:\\game\\srcds.exe", "", "C:\\game"),
        ("C:\\srcds.exe", "", "C:\\"),
        ("C:/game/srcds.exe", "C:/game", "C:/game"),
        ("C:/srcds.exe", "C:", "C:/"),
        ("/srv\\game/a\\srcds.exe", "/srv\\game", "/srv\\game/a"),
        ("\\srcds.exe", "", "\\"),
    ] {
        assert_eq!(root(path), if windows { on_windows } else { on_unix });
    }
}

#[test]
fn module_is_found_below_the_game_root() {
    let separator = std::path::MAIN_SEPARATOR;
    assert_eq!(
        dll_path_in(Arch::X86, "/srv/game"),
        format!("/srv/game{separator}bin\\dedicated.dll")
    );
    assert_eq!(
        dll_path_in(Arch::X64, "game"),
        format!("game{separator}bin\\win64\\dedicated.dll")
    );
    assert_eq!(dll_path_in(Arch::X86, ""), "bin\\dedicated.dll");
    assert_eq!(dll_path_in(Arch::X86, "/"), "/bin\\dedicated.dll");
    assert_eq!(bin_subdir_in(Arch::X86, "game"), format!("game{separator}bin"));
    assert_eq!(bin_subdir_in(Arch::X64, "game/"), "game/bin\\win64");
    assert_eq!(bin_subdir_in(Arch::X64, ""), "bin\\win64");
}

#[test]
fn directory_goes_first_on_the_path() {
    assert_eq!(
        prepend_path("C:\\game\\bin", Some("C:\\a;C:\\b")),
        Some(b"C:\\game\\bin;C:\\a;C:\\b\0".to_vec())
    );
    assert_eq!(prepend_path("C:\\game\\bin", Some("")), Some(b"C:\\game\\bin;\0".to_vec()));
    assert_eq!(prepend_path("C:\\game\\bin", None), Some(b"C:\\game\\bin;\0".to_vec()));
}

#[test]
fn empty_entries_are_kept_on_the_path() {
    assert_eq!(prepend_path("", Some("")), Some(b";\0".to_vec()));
}

#[test]
fn zero_byte_on_the_path_is_refused() {
    assert_eq!(prepend_path("a\0b", None), None);
    assert_eq!(prepend_path("a\0b", Some("C:\\a")), None);
    assert_eq!(prepend_path("C:\\bin", Some("C:\\a\0")), None);
    assert_eq!(prepend_path("", Some("\0")), None);
}

#[test]
fn paths_become_c_strings() {
    assert_eq!(path_to_cstring(Some("bin\\a")), Ok(b"bin\\a\0".to_vec()));
    assert_eq!(path_to_cstring(Some("\u{e9}")), Ok(vec![0xc3, 0xa9, 0]));
    assert_eq!(path_to_cstring(Some("")), Ok(vec![0]));
    assert_eq!(path_to_cstring(Some("a\0b")), Err(PathError::ContainsZero));
    assert_eq!(path_to_cstring(None), Err(PathError::NotUtf8));
    assert_eq!(c_string("PATH"), Some(b"PATH\0".to_vec()));
    assert_eq!(c_string("\0"), None);
}

#[test]
fn explains_error_codes() {
    assert_eq!(
        explain_error(0xc1),
        "  -> ERROR_BAD_EXE_FORMAT: not a valid Win32 application (architecture mismatch?)"
    );
    assert_eq!(
        explain_error(0x7e),
        "  -> ERROR_MOD_NOT_FOUND: a dependency DLL was not found. Check that bin\\ directory is correct."
    );
    assert_eq!(explain_error(0xb7), "  -> ERROR_ALREADY_EXISTS");
    assert_eq!(explain_error(5), "  -> Windows error code 0x00000005 (5)");
    assert_eq!(explain_error(u32::MAX), "  -> Windows error code 0xffffffff (4294967295)");
}

#[test]
fn launch_that_succeeds() {
    let mut launcher = Launcher::new(Arch::X64);
    advance(&mut launcher, Event::RootFound, &[], Action::FindModule);
    advance(&mut launcher, Event::ModuleFound, &[], Action::SetPath);
    advance(
        &mut launcher,
        Event::PathSet,
        &["[srcds_console] Loading bin\\win64\\dedicated.dll (x64)"],
        Action::LoadModule,
    );
    advance(
        &mut launcher,
        Event::Loaded(0x1_8000_0000),
        &["[srcds_console] dedicated.dll loaded at 0x180000000"],
        Action::InstallHooks,
    );
    advance(
        &mut launcher,
        Event::Hooked(8),
        &["[srcds_console] Installed 8 console hooks"],
        Action::FindEntry,
    );
    advance(
        &mut launcher,
        Event::EntryFound,
        &["[srcds_console] Calling DedicatedMain...", ""],
        Action::CallEntry,
    );
    advance(&mut launcher, Event::Returned(-3), &[], Action::Exit(-3));
}

#[test]
fn launch_without_a_game_root() {
    for (error, line) in [
        (RootError::NoFileName, "[srcds_console] Error: GetModuleFileNameA failed"),
        (RootError::NotUtf8, "[srcds_console] Error: exe path is not valid UTF-8"),
        (RootError::NoParent, "[srcds_console] Error: cannot determine game root from exe path"),
    ] {
        let mut launcher = Launcher::new(Arch::X86);
        advance(&mut launcher, Event::RootFailed(error), &[line], Action::Exit(1));
    }
}

#[test]
fn launch_without_the_module() {
    let mut launcher = Launcher::new(Arch::X86);
    launcher.advance(Event::RootFound);
    advance(
        &mut launcher,
        Event::ModuleMissing("C:\\game\\bin\\dedicated.dll".to_string()),
        &[
            "[srcds_console] Error: C:\\game\\bin\\dedicated.dll not found",
            "[srcds_console] Make sure this exe is placed in the SRCDS game root.",
        ],
        Action::Exit(1),
    );
}

#[test]
fn launch_that_cannot_load_the_module() {
    advance(
        &mut loading(Arch::X86),
        Event::LoadFailed(0xc1),
        &[
            "[srcds_console] Failed to load bin\\dedicated.dll: error 0x000000c1",
            "  -> ERROR_BAD_EXE_FORMAT: not a valid Win32 application (architecture mismatch?)",
        ],
        Action::Exit(1),
    );
    advance(
        &mut loading(Arch::X64),
        Event::PathUnusable(PathError::NotUtf8),
        &["[srcds_console] Error: path contains non-UTF8 characters"],
        Action::Exit(1),
    );
    advance(
        &mut loading(Arch::X64),
        Event::PathUnusable(PathError::ContainsZero),
        &["[srcds_console] Error: path contains null bytes"],
        Action::Exit(1),
    );
}

#[test]
fn launch_without_an_entry_point() {
    let mut launcher = loading(Arch::X64);
    launcher.advance(Event::Loaded(0x1000));
    launcher.advance(Event::Hooked(0));
    advance(
        &mut launcher,
        Event::EntryMissing,
        &["[srcds_console] Error: DedicatedMain not found in dedicated.dll"],
        Action::Exit(1),
    );
}
