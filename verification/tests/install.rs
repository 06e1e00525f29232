use srcds_console::api::{all_apis, find_api, save_original, ApiTable, ConsoleApi};
use srcds_console::imports::{
    find_headers_end, find_image_size, find_import_directory, next_import, next_length, Cursor,
    HeaderError, Site, Stop,
};
use srcds_console::install::{install_console_hooks, Ending, Installer};
use srcds_console::memory::{read_u16, read_u32, read_word, write_word, Width};
use srcds_console::names::{bytes_are, is_terminated, name_is, name_is_in_any_case, to_lower};

const HEADERS: usize = 0x80;
const DIRECTORY: usize = 0x200;

fn put(image: &mut Vec<u8>, at: usize, bytes: &[u8]) {
    image[at..at + bytes.len()].copy_from_slice(bytes);
}

fn put_word(image: &mut Vec<u8>, w: Width, at: usize, v: u64) {
    match w {
        Width::Bits32 => put(image, at, &(v as u32).to_le_bytes()),
        Width::Bits64 => put(image, at, &v.to_le_bytes()),
    }
}

fn size_of(w: Width) -> usize {
    match w {
        Width::Bits32 => 4,
        Width::Bits64 => 8,
    }
}

/// A module with valid headers and an import directory without descriptors.
fn module(w: Width) -> Vec<u8> {
    let mut image = vec![0u8; 0x1000];
    put(&mut image, 0, b"MZ");
    put(&mut image, 60, &(HEADERS as i32).to_le_bytes());
    put(&mut image, HEADERS, b"PE\0\0");
    put(&mut image, HEADERS + 80, &0x1000u32.to_le_bytes());
    let field = match w {
        Width::Bits32 => HEADERS + 128,
        Width::Bits64 => HEADERS + 144,
    };
    put(&mut image, field, &(DIRECTORY as u32).to_le_bytes());
    image
}

/// Adds descriptor `k`, which imports from the module named at `name`.
fn descriptor(image: &mut Vec<u8>, k: usize, lookup: u32, name: u32, slots: u32) {
    let at = DIRECTORY + 20 * k;
    put(image, at, &lookup.to_le_bytes());
    put(image, at + 12, &name.to_le_bytes());
    put(image, at + 16, &slots.to_le_bytes());
}

/// Stores an imported name behind its hint, and gives where it stands.
fn import_name(image: &mut Vec<u8>, at: usize, name: &str) -> u64 {
    put(image, at, &[0x34, 0x12]);
    put(image, at + 2, name.as_bytes());
    image[at + 2 + name.len()] = 0;
    at as u64
}

fn hooks() -> ApiTable {
    let mut table = ApiTable::zeroed();
    for a in all_apis() {
        table.set(a, 0x7000 + a.index() as u64);
    }
    table
}

/// A module that imports four functions from KERNEL32.dll: one that is not redirected, two that are,
/// and one by ordinal, and a redirected name from another module.
fn game_module(w: Width, with_lookup: bool) -> (Vec<u8>, usize) {
    let mut image = module(w);
    let size = size_of(w);
    put(&mut image, 0x300, b"USER32.dll\0");
    put(&mut image, 0x320, b"kernel32.DLL\0");
    let free = import_name(&mut image, 0x340, "FreeConsole");
    let write = import_name(&mut image, 0x360, "WriteConsoleW");
    let alloc = import_name(&mut image, 0x380, "AllocConsole");
    let info = import_name(&mut image, 0x3a0, "GetConsoleScreenBufferInfo");
    let ordinal = match w {
        Width::Bits32 => 0x8000_0011,
        Width::Bits64 => 0x8000_0000_0000_0011,
    };
    let other = 0x400;
    let lookup = 0x500;
    let slots = if with_lookup { 0x600 } else { lookup };
    put_word(&mut image, w, other, free);
    for (i, entry) in [write, alloc, ordinal, info].iter().enumerate() {
        put_word(&mut image, w, lookup + i * size, *entry);
        if with_lookup {
            put_word(&mut image, w, slots + i * size, 0x1111 * (i as u64 + 1));
        }
    }
    descriptor(&mut image, 0, other as u32, 0x300, 0x480);
    descriptor(&mut image, 1, if with_lookup { lookup as u32 } else { 0 }, 0x320, slots as u32);
    (image, slots)
}

#[test]
fn reads_little_endian_numbers() {
    let image = [1u8, 2, 3, 4, 5, 6, 7, 8, 9];
    assert_eq!(read_u16(&image, 0), Some(0x0201));
    assert_eq!(read_u16(&image, 7), Some(0x0908));
    assert_eq!(read_u16(&image, 8), None);
    assert_eq!(read_u32(&image, 1), Some(0x0504_0302));
    assert_eq!(read_u32(&image, 6), None);
    assert_eq!(read_word(&image, Width::Bits32, 5), Some(0x0908_0706));
    assert_eq!(read_word(&image, Width::Bits64, 1), Some(0x0908_0706_0504_0302));
    assert_eq!(read_word(&image, Width::Bits64, 2), None);
    assert_eq!(read_word(&image, Width::Bits64, u64::MAX), None);
    assert_eq!(read_u16(&[], 0), None);
}

#[test]
fn written_word_reads_back() {
    let mut image = vec![0xaau8; 12];
    write_word(&mut image, Width::Bits64, 2, 0x1122_3344_5566_7788);
    assert_eq!(image, [0xaa, 0xaa, 0x88, 0x77, 0x66, 0x55, 0x44, 0x33, 0x22, 0x11, 0xaa, 0xaa]);
    assert_eq!(read_word(&image, Width::Bits64, 2), Some(0x1122_3344_5566_7788));
    write_word(&mut image, Width::Bits32, 0, 0xdead_beef);
    assert_eq!(read_word(&image, Width::Bits32, 0), Some(0xdead_beef));
    assert_eq!(image[4], 0x66);
}

#[test]
fn compares_names() {
    let image = b"xKernel32.DLL\0AllocConsole\0Alloc";
    assert!(name_is_in_any_case(image, 1, "KERNEL32.dll"));
    assert!(!name_is_in_any_case(image, 0, "KERNEL32.dll"));
    assert!(!name_is_in_any_case(image, 1, "KERNEL32"));
    assert!(name_is(image, 14, "AllocConsole"));
    assert!(!name_is(image, 14, "allocConsole"));
    assert!(!name_is(image, 14, "Alloc"));
    assert!(!name_is(image, 27, "Alloc"));
    assert!(is_terminated(image, 14));
    assert!(is_terminated(image, 26));
    assert!(!is_terminated(image, 27));
    assert!(!is_terminated(image, 1000));
    assert!(bytes_are(b"1", "1"));
    assert!(!bytes_are(b"12", "1"));
    assert_eq!(to_lower(b'Z'), b'z');
    assert_eq!(to_lower(b'['), b'[');
    assert_eq!(to_lower(b'@'), b'@');
}

#[test]
fn finds_each_function_by_name() {
    for a in all_apis() {
        let mut image = a.name().as_bytes().to_vec();
        image.push(0);
        assert_eq!(find_api(&image, 0), Some(a));
        assert_eq!(find_api(&image, 1), None);
    }
    assert_eq!(find_api(b"WriteConsoleW\0", 0), None);
    assert_eq!(find_api(b"WriteFile\0", 0), None);
    assert_eq!(all_apis().len(), 8);
}

#[test]
fn saves_originals_by_name() {
    let mut originals = ApiTable::zeroed();
    for a in all_apis() {
        save_original(&mut originals, a.name().as_bytes(), 100 + a.index() as u64);
    }
    save_original(&mut originals, b"WriteFile", 9);
    save_original(&mut originals, b"AllocConsole\0", 9);
    for a in all_apis() {
        assert_eq!(originals.get(a), 100 + a.index() as u64);
    }
    save_original(&mut originals, b"FreeConsole", 5);
    assert_eq!(originals.get(ConsoleApi::FreeConsole), 5);
    assert_eq!(originals.get(ConsoleApi::AllocConsole), 106);
}

#[test]
fn rejects_bad_headers() {
    for w in [Width::Bits32, Width::Bits64] {
        let good = module(w);
        assert_eq!(find_import_directory(&good, w), Ok(DIRECTORY as u32));
        assert_eq!(find_image_size(&good), Some(0x1000));

        let mut image = good.clone();
        image[1] = 0;
        assert_eq!(find_import_directory(&image, w), Err(HeaderError::InvalidDosSignature));
        assert_eq!(find_image_size(&image), None);

        let mut image = good.clone();
        image[HEADERS + 2] = 1;
        assert_eq!(find_import_directory(&image, w), Err(HeaderError::InvalidPeSignature));
        assert_eq!(find_image_size(&image), None);

        let mut image = good.clone();
        let field = if w == Width::Bits32 { HEADERS + 128 } else { HEADERS + 144 };
        put(&mut image, field, &[0; 4]);
        assert_eq!(find_import_directory(&image, w), Err(HeaderError::NoImportDirectory));

        let mut image = good.clone();
        put(&mut image, 60, &(-4i32).to_le_bytes());
        assert_eq!(find_import_directory(&image, w), Err(HeaderError::OutsideImage));
        assert_eq!(find_import_directory(&good[..field + 3], w), Err(HeaderError::OutsideImage));
        assert_eq!(find_import_directory(&good[..1], w), Err(HeaderError::OutsideImage));
    }
    assert_eq!(HeaderError::InvalidDosSignature.message(), "[hooks] Invalid DOS signature");
    assert_eq!(HeaderError::InvalidPeSignature.message(), "[hooks] Invalid PE signature");
    assert_eq!(HeaderError::NoImportDirectory.message(), "[hooks] No import directory");
    assert_eq!(HeaderError::OutsideImage.message(), "[hooks] Headers lie outside the module");
}

#[test]
fn rejected_module_stays_as_it_is() {
    let mut image = module(Width::Bits64);
    image[0] = 0;
    let before = image.clone();
    let report = install_console_hooks(&mut image, Width::Bits64, hooks(), &[true, true]);
    assert_eq!(image, before);
    assert_eq!(report.count, 0);
    assert_eq!(report.ending, Ending::Rejected(HeaderError::InvalidDosSignature));
    assert_eq!(report.originals.get(ConsoleApi::AllocConsole), 0);
}

#[test]
fn module_without_imports_is_finished_at_once() {
    let mut image = module(Width::Bits64);
    let before = image.clone();
    let report = install_console_hooks(&mut image, Width::Bits64, hooks(), &[]);
    assert_eq!(image, before);
    assert_eq!(report.count, 0);
    assert_eq!(report.ending, Ending::Finished);
}

#[test]
fn redirects_the_imports_of_a_module() {
    for w in [Width::Bits32, Width::Bits64] {
        let size = size_of(w);
        let (before, slots) = game_module(w, true);
        let mut image = before.clone();
        let report = install_console_hooks(&mut image, w, hooks(), &[true, true]);
        assert_eq!(report.count, 2);
        assert_eq!(report.ending, Ending::Finished);
        assert_eq!(report.originals.get(ConsoleApi::AllocConsole), 0x2222);
        assert_eq!(report.originals.get(ConsoleApi::GetConsoleScreenBufferInfo), 0x4444);
        assert_eq!(report.originals.get(ConsoleApi::FreeConsole), 0);

        let mut expected = before.clone();
        put_word(&mut expected, w, slots + size, 0x7006);
        put_word(&mut expected, w, slots + 3 * size, 0x7005);
        assert_eq!(image, expected);
    }
}

#[test]
fn names_may_stand_in_the_address_table() {
    for w in [Width::Bits32, Width::Bits64] {
        let size = size_of(w);
        let (before, slots) = game_module(w, false);
        let mut image = before.clone();
        let report = install_console_hooks(&mut image, w, hooks(), &[true, true]);
        assert_eq!(report.count, 2);
        assert_eq!(report.ending, Ending::Finished);
        assert_eq!(report.originals.get(ConsoleApi::AllocConsole), 0x380);
        let mut expected = before.clone();
        put_word(&mut expected, w, slots + size, 0x7006);
        put_word(&mut expected, w, slots + 3 * size, 0x7005);
        assert_eq!(image, expected);
    }
}

#[test]
fn refused_slot_keeps_its_value() {
    let w = Width::Bits64;
    let (before, slots) = game_module(w, true);
    let mut image = before.clone();
    let report = install_console_hooks(&mut image, w, hooks(), &[false, true]);
    assert_eq!(report.count, 1);
    assert_eq!(report.ending, Ending::Finished);
    assert_eq!(report.originals.get(ConsoleApi::AllocConsole), 0);
    assert_eq!(report.originals.get(ConsoleApi::GetConsoleScreenBufferInfo), 0x4444);
    let mut expected = before.clone();
    put_word(&mut expected, w, slots + 24, 0x7005);
    assert_eq!(image, expected);
}

#[test]
fn waits_for_a_missing_answer() {
    let w = Width::Bits64;
    let (mut image, _) = game_module(w, true);
    let report = install_console_hooks(&mut image, w, hooks(), &[true]);
    assert_eq!(report.count, 1);
    assert_eq!(report.ending, Ending::Waiting);
    let (mut image, _) = game_module(w, true);
    let report = install_console_hooks(&mut image, w, hooks(), &[true, true, true, false]);
    assert_eq!(report.count, 2);
    assert_eq!(report.ending, Ending::Finished);
}

#[test]
fn last_redirected_slot_gives_the_original() {
    let w = Width::Bits64;
    let (mut image, _) = game_module(w, true);
    descriptor(&mut image, 2, 0x700, 0x320, 0x740);
    put_word(&mut image, w, 0x700, 0x380);
    put_word(&mut image, w, 0x740, 0x9999);
    let report = install_console_hooks(&mut image, w, hooks(), &[true, true, true]);
    assert_eq!(report.count, 3);
    assert_eq!(report.originals.get(ConsoleApi::AllocConsole), 0x9999);
    assert_eq!(read_word(&image, w, 0x740), Some(0x7006));
}

#[test]
fn tables_outside_the_module_end_the_walk() {
    let w = Width::Bits64;
    let (good, _) = game_module(w, true);

    let mut image = good.clone();
    descriptor(&mut image, 1, 0x0fff, 0x320, 0x600);
    let report = install_console_hooks(&mut image, w, hooks(), &[true, true]);
    assert_eq!((report.count, report.ending), (0, Ending::OutsideImage));

    let mut image = good.clone();
    descriptor(&mut image, 1, 0x500, 0x320, 0x0ff0);
    let report = install_console_hooks(&mut image, w, hooks(), &[true, true]);
    assert_eq!((report.count, report.ending), (1, Ending::OutsideImage));

    let mut image = good.clone();
    descriptor(&mut image, 0, 0x400, 0x2000, 0x480);
    let report = install_console_hooks(&mut image, w, hooks(), &[true, true]);
    assert_eq!((report.count, report.ending), (0, Ending::OutsideImage));

    let mut image = good.clone();
    put_word(&mut image, w, 0x500, 0x7fff_ffff_ffff_ffff);
    let report = install_console_hooks(&mut image, w, hooks(), &[true, true]);
    assert_eq!((report.count, report.ending), (0, Ending::OutsideImage));
}

#[test]
fn walk_stops_at_each_import() {
    let w = Width::Bits64;
    let (image, slots) = game_module(w, true);
    let slots = slots as u64;
    let (stop, cursor) = next_import(&image, w, Cursor::Descriptor(DIRECTORY as u64));
    assert_eq!(stop, Stop::Import(Site { slot: slots + 8, api: ConsoleApi::AllocConsole }));
    let (stop, cursor) = next_import(&image, w, cursor);
    assert_eq!(
        stop,
        Stop::Import(Site { slot: slots + 24, api: ConsoleApi::GetConsoleScreenBufferInfo })
    );
    let (stop, cursor) = next_import(&image, w, cursor);
    assert_eq!(stop, Stop::Finished);
    let (stop, _) = next_import(&image, w, cursor);
    assert_eq!(stop, Stop::Finished);
    assert_eq!(next_import(&image, w, Cursor::Descriptor(u64::MAX)).0, Stop::OutsideImage);
}

#[test]
fn installer_takes_answers_one_by_one() {
    let w = Width::Bits64;
    let (image, slots) = game_module(w, true);
    let mut installer = match Installer::start(&image, w, hooks()) {
        Ok(installer) => installer,
        Err(_) => panic!("the module was rejected"),
    };
    let first = match installer.next(&image) {
        Stop::Import(site) => site,
        _ => panic!("no import"),
    };
    assert_eq!(first.slot, slots as u64 + 8);
    assert_eq!(installer.refused(first), "[hooks] VirtualProtect failed for AllocConsole");
    let second = match installer.next(&image) {
        Stop::Import(site) => site,
        _ => panic!("no import"),
    };
    assert_eq!(installer.granted(second, 0xabcd), 0x7005);
    assert_eq!(installer.next(&image), Stop::Finished);
    assert_eq!(installer.count(), 1);
    assert_eq!(installer.originals().get(ConsoleApi::GetConsoleScreenBufferInfo), 0xabcd);
    assert_eq!(installer.originals().get(ConsoleApi::AllocConsole), 0);

    let mut bad = image.clone();
    bad[HEADERS] = 0;
    match Installer::start(&bad, w, hooks()) {
        Err(e) => assert_eq!(e, HeaderError::InvalidPeSignature),
        Ok(_) => panic!("the module was accepted"),
    }
}

#[test]
fn bytes_that_are_not_read_do_not_matter() {
    let w = Width::Bits64;
    let (image, slots) = game_module(w, true);
    let mut other = image.clone();
    put_word(&mut other, w, slots + 8, 0xffff_ffff);
    put(&mut other, 0x340, &[9, 9]);
    put(&mut other, 0x900, b"AllocConsole\0");
    let start = Cursor::Descriptor(DIRECTORY as u64);
    let (stop, cursor) = next_import(&image, w, start);
    let (other_stop, other_cursor) = next_import(&other, w, start);
    assert_eq!(stop, other_stop);
    assert_eq!(next_import(&image, w, cursor).0, next_import(&other, w, other_cursor).0);
}

#[test]
fn slot_that_is_read_again_disturbs_the_walk() {
    let w = Width::Bits64;
    let mut image = module(w);
    put(&mut image, 0x320, b"KERNEL32.dll\0");
    let alloc = import_name(&mut image, 0x380, "AllocConsole");
    put_word(&mut image, w, 0x500, alloc);
    descriptor(&mut image, 0, 0, 0x320, 0x500);
    descriptor(&mut image, 1, 0, 0x320, 0x500);
    let report = install_console_hooks(&mut image.clone(), w, hooks(), &[true, true]);
    assert_eq!((report.count, report.ending), (1, Ending::OutsideImage));
    let report = install_console_hooks(&mut image, w, hooks(), &[false, true]);
    assert_eq!((report.count, report.ending), (1, Ending::Finished));
    assert_eq!(report.originals.get(ConsoleApi::AllocConsole), alloc);
}

#[test]
fn second_installation_changes_nothing() {
    for w in [Width::Bits32, Width::Bits64] {
        let (mut image, _) = game_module(w, true);
        install_console_hooks(&mut image, w, hooks(), &[true, true]);
        let mut again = image.clone();
        let report = install_console_hooks(&mut again, w, hooks(), &[true, true]);
        assert_eq!(again, image);
        assert_eq!((report.count, report.ending), (2, Ending::Finished));

        let (mut image, _) = game_module(w, true);
        let first = install_console_hooks(&mut image, w, hooks(), &[false, true]);
        let mut again = image.clone();
        let second = install_console_hooks(&mut again, w, hooks(), &[false, true]);
        assert_eq!(again, image);
        assert_eq!((second.count, second.ending), (first.count, first.ending));
    }
}

#[test]
fn case_of_module_names_is_ignored() {
    let w = Width::Bits64;
    for name in [b"KERNEL32.dll\0", b"kernel32.dll\0", b"KERNEL32.DLL\0", b"kErNeL32.dLl\0"] {
        let (mut image, slots) = game_module(w, true);
        put(&mut image, 0x320, name);
        let report = install_console_hooks(&mut image, w, hooks(), &[true, true]);
        assert_eq!((report.count, report.ending), (2, Ending::Finished));
        assert_eq!(read_word(&image, w, slots as u64 + 8), Some(0x7006));
    }
}

#[test]
fn size_is_found_wherever_the_headers_stand() {
    let mut image = vec![0u8; 0x3000];
    put(&mut image, 0, b"MZ");
    put(&mut image, 60, &0x2000i32.to_le_bytes());
    put(&mut image, 0x2000, b"PE\0\0");
    put(&mut image, 0x2000 + 80, &0x3000u32.to_le_bytes());
    assert_eq!(find_headers_end(&image[..64]), Some(0x2054));
    assert_eq!(find_image_size(&image[..0x2054]), Some(0x3000));
    assert_eq!(find_image_size(&image[..0x2053]), None);
    assert_eq!(find_headers_end(&image[..63]), None);
    put(&mut image, 60, &i32::MAX.to_le_bytes());
    assert_eq!(find_headers_end(&image), Some(0x8000_0053));
    put(&mut image, 60, &(-1i32).to_le_bytes());
    assert_eq!(find_headers_end(&image), None);
    put(&mut image, 0, b"ZM");
    assert_eq!(find_headers_end(&image), None);
}

#[test]
fn only_a_walk_that_cannot_go_on_has_a_message() {
    assert_eq!(
        Stop::OutsideImage.message(),
        Some("[hooks] Import tables lie outside the module")
    );
    assert_eq!(Stop::Finished.message(), None);
    assert_eq!(Stop::Import(Site { slot: 8, api: ConsoleApi::AllocConsole }).message(), None);
}

#[test]
fn module_is_read_in_steps() {
    let lengths = |image: &[u8]| {
        let mut lengths = vec![0];
        loop {
            let length = lengths[lengths.len() - 1];
            let next = next_length(&image[..length]);
            if next == length {
                return lengths;
            }
            lengths.push(next);
        }
    };
    let near = module(Width::Bits64);
    assert_eq!(lengths(&near), vec![0, 64, HEADERS + 84, 0x1000]);
    let mut far = vec![0u8; 0x3000];
    put(&mut far, 0, b"MZ");
    put(&mut far, 60, &0x2000i32.to_le_bytes());
    assert_eq!(lengths(&far), vec![0, 64, 0x2054]);
    put(&mut far, 0x2000, b"PE\0\0");
    put(&mut far, 0x2000 + 80, &0x3000u32.to_le_bytes());
    assert_eq!(lengths(&far), vec![0, 64, 0x2054, 0x3000]);
    put(&mut far, 0x2000 + 80, &7u32.to_le_bytes());
    assert_eq!(lengths(&far), vec![0, 64, 0x2054]);
    put(&mut far, 0, b"ZM");
    assert_eq!(lengths(&far), vec![0, 64]);
}

#[test]
fn installations_ignore_the_case_of_module_names() {
    let w = Width::Bits64;
    for answers in [[true, true], [true, false], [false, true]] {
        let (mut image, slots) = game_module(w, true);
        let mut other = image.clone();
        put(&mut other, 0x300, b"user32.DLL\0");
        put(&mut other, 0x320, b"KERNEL32.dll\0");
        let report = install_console_hooks(&mut image, w, hooks(), &answers);
        let other_report = install_console_hooks(&mut other, w, hooks(), &answers);
        assert_eq!(report.count, other_report.count);
        assert_eq!(report.ending, other_report.ending);
        for a in all_apis() {
            assert_eq!(report.originals.get(a), other_report.originals.get(a));
        }
        assert_eq!(image[slots..slots + 32], other[slots..slots + 32]);
    }
}
