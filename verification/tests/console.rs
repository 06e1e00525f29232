use srcds_console::console::{
    fallback_info, hooked_AllocConsole, hooked_FreeConsole, hooked_GetConsoleScreenBufferInfo,
    hooked_SetConsoleCursorPosition, hooked_SetConsoleScreenBufferSize,
    hooked_SetConsoleWindowInfo, hooked_WriteConsoleOutputAttribute,
    hooked_WriteConsoleOutputCharacterA, BufferInfoReply, Coord, SmallRect,
};
use srcds_console::status::StatusBar;
use srcds_console::terminal::{send, Order};

#[test]
fn character_writes_are_captured() {
    let mut status = StatusBar::new(None);
    let mut written = 0;
    assert_eq!(
        hooked_WriteConsoleOutputCharacterA(&mut status, b"FPS 66", 6, Some(&mut written)),
        1
    );
    assert_eq!(written, 6);
    assert_eq!(
        status.draw(25, 80),
        b"\x1b7\x1b[1;24r\x1b[25;1H\x1b[2KFPS 66\x1b8".to_vec()
    );
    assert_eq!(hooked_WriteConsoleOutputCharacterA(&mut status, b"", 0, None), 1);
    assert_eq!(status.draw(25, 80), b"\x1b7\x1b[1;24r\x1b[25;1H\x1b[2K\x1b8".to_vec());
}

#[test]
fn attribute_writes_are_dropped() {
    let mut written = 7;
    assert_eq!(hooked_WriteConsoleOutputAttribute(80, Some(&mut written)), 1);
    assert_eq!(written, 80);
    assert_eq!(hooked_WriteConsoleOutputAttribute(80, None), 1);
}

#[test]
fn terminal_manipulation_is_dropped() {
    let coord = Coord { x: 3, y: 4 };
    assert_eq!(hooked_SetConsoleCursorPosition(coord), 1);
    assert_eq!(hooked_SetConsoleScreenBufferSize(coord), 1);
    assert_eq!(hooked_SetConsoleWindowInfo(true, false), 1);
    assert_eq!(hooked_SetConsoleWindowInfo(false, true), 1);
    assert_eq!(hooked_AllocConsole(), 1);
    assert_eq!(hooked_FreeConsole(), 1);
}

#[test]
fn buffer_questions_are_passed_on() {
    assert_eq!(hooked_GetConsoleScreenBufferInfo(0x4444, true), BufferInfoReply::Forward(0x4444));
    assert_eq!(hooked_GetConsoleScreenBufferInfo(1, false), BufferInfoReply::Forward(1));
    assert_eq!(hooked_GetConsoleScreenBufferInfo(0, false), BufferInfoReply::Failed);
    match hooked_GetConsoleScreenBufferInfo(0, true) {
        BufferInfoReply::Filled(info) => {
            assert_eq!(info.size, Coord { x: 80, y: 25 });
            assert_eq!(info.cursor_position, Coord { x: 0, y: 0 });
            assert_eq!(info.attributes, 7);
            assert_eq!(info.window, SmallRect { left: 0, top: 0, right: 79, bottom: 24 });
            assert_eq!(info.maximum_window_size, Coord { x: 80, y: 25 });
        }
        _ => panic!("no answer"),
    }
}

#[test]
fn window_size_counts_both_edges() {
    let mut info = fallback_info();
    assert_eq!(info.window_size(), (25, 80));
    info.window = SmallRect { left: 5, top: 9, right: 4, bottom: 9 };
    assert_eq!(info.window_size(), (1, 0));
    info.window = SmallRect { left: i16::MIN, top: 0, right: i16::MAX, bottom: 0 };
    assert_eq!(info.window_size(), (1, 65536));
}

#[test]
fn status_bar_can_be_turned_off() {
    for off in ["1", "true"] {
        let mut status = StatusBar::new(Some(off));
        status.capture(b"text");
        assert!(status.draw(25, 80).is_empty());
        assert!(status.release().is_empty());
    }
    for on in ["", "0", "TRUE", "false", "11"] {
        let mut status = StatusBar::new(Some(on));
        status.capture(b"text");
        assert!(!status.draw(25, 80).is_empty());
        assert_eq!(status.release(), b"\x1b7\x1b[r\x1b8".to_vec());
    }
}

#[test]
fn status_bar_stays_in_its_row() {
    let mut status = StatusBar::new(None);
    status.capture(b"a\nb\x1bc\xffdefgh\0");
    assert_eq!(
        status.draw(100, 8),
        b"\x1b7\x1b[1;99r\x1b[100;1H\x1b[2Ka b c de\x1b8".to_vec()
    );
    assert!(status.draw(1, 80).is_empty());
    assert!(status.draw(0, 80).is_empty());
    assert!(status.draw(2, 80).is_empty());
    assert_eq!(status.draw(3, 0), b"\x1b7\x1b[1;2r\x1b[3;1H\x1b[2K\x1b8".to_vec());
}

#[test]
fn blanks_around_the_setting_do_not_count() {
    for off in ["1 ", " true ", "\t1", "true\t ", " \t 1 \t "] {
        let mut status = StatusBar::new(Some(off));
        status.capture(b"text");
        assert!(status.draw(25, 80).is_empty());
        assert!(status.reserve(25).is_empty());
    }
    for on in [" ", "\t\t", "1 1", " tr ue", "1\n", "\u{a0}1", " 0 "] {
        let mut status = StatusBar::new(Some(on));
        status.capture(b"text");
        assert!(!status.draw(25, 80).is_empty());
        assert!(!status.reserve(25).is_empty());
    }
}

#[test]
fn bottom_row_is_reserved_once_for_each_size() {
    let sequence = b"\x1b7\x1b[r\x1b8\n\x1b[A".to_vec();
    let mut status = StatusBar::new(None);
    assert!(status.reserve(2).is_empty());
    assert_eq!(status.reserve(25), sequence);
    assert!(status.reserve(25).is_empty());
    status.capture(b"text");
    assert!(status.reserve(25).is_empty());
    assert!(status.reserve(0).is_empty());
    assert_eq!(status.reserve(30), sequence);
    assert!(status.reserve(30).is_empty());
    assert_eq!(status.reserve(3), sequence);
    assert!(status.reserve(1).is_empty());
    assert_eq!(status.reserve(3), sequence);
}

#[test]
fn orders_have_their_control_sequences() {
    let orders: [(Order, &[u8]); 8] = [
        (Order::Save, b"\x1b7"),
        (Order::Restore, b"\x1b8"),
        (Order::FullRegion, b"\x1b[r"),
        (Order::Region(24), b"\x1b[1;24r"),
        (Order::MoveTo(25), b"\x1b[25;1H"),
        (Order::ClearLine, b"\x1b[2K"),
        (Order::LineFeed, b"\n"),
        (Order::Up, b"\x1b[A"),
    ];
    for (order, bytes) in orders {
        let mut out = b"x".to_vec();
        send(&mut out, order);
        assert_eq!(out[0], b'x');
        assert_eq!(&out[1..], bytes);
    }
}

/// A terminal that acts on the control sequences of the status bar.
struct Terminal {
    lines: Vec<Vec<u8>>,
    bottom: usize,
    row: usize,
    saved: usize,
}

impl Terminal {
    fn new(rows: usize, row: usize) -> Terminal {
        let lines = (1..=rows).map(|i| format!("line {i}").into_bytes()).collect();
        Terminal { lines, bottom: rows, row, saved: 1 }
    }

    fn receive(&mut self, bytes: &[u8]) {
        let mut i = 0;
        while i < bytes.len() {
            match bytes[i..] {
                [0x1b, b'7', ..] => {
                    self.saved = self.row;
                    i += 2;
                }
                [0x1b, b'8', ..] => {
                    self.row = self.saved;
                    i += 2;
                }
                [0x1b, b'[', ..] => {
                    let mut end = i + 2;
                    while !bytes[end].is_ascii_alphabetic() {
                        end += 1;
                    }
                    let text = String::from_utf8(bytes[i + 2..end].to_vec()).unwrap();
                    let numbers: Vec<usize> =
                        text.split(';').filter_map(|n| n.parse().ok()).collect();
                    match bytes[end] {
                        b'r' => {
                            self.bottom = numbers.get(1).copied().unwrap_or(self.lines.len());
                            self.row = 1;
                        }
                        b'H' => self.row = numbers[0],
                        b'K' => self.lines[self.row - 1].clear(),
                        b'A' => self.row = (self.row - 1).max(1),
                        _ => panic!("unknown sequence"),
                    }
                    i = end + 1;
                }
                [b'\n', ..] => {
                    if self.row == self.bottom {
                        self.lines.remove(0);
                        self.lines.insert(self.bottom - 1, Vec::new());
                    } else if self.row < self.lines.len() {
                        self.row += 1;
                    }
                    i += 1;
                }
                _ => {
                    self.lines[self.row - 1].push(bytes[i]);
                    i += 1;
                }
            }
        }
    }
}

#[test]
fn shown_bar_is_reserved_where_that_is_due() {
    let mut status = StatusBar::new(None);
    status.capture(b"FPS 66");
    let drawing = b"\x1b7\x1b[1;24r\x1b[25;1H\x1b[2KFPS 66\x1b8".to_vec();
    let mut first = b"\x1b7\x1b[r\x1b8\n\x1b[A".to_vec();
    first.extend(&drawing);
    assert_eq!(status.show(25, 80), first);
    assert_eq!(status.show(25, 80), drawing);
    assert!(status.show(2, 80).is_empty());
    assert_eq!(status.show(25, 80), first);
    assert!(StatusBar::new(Some("1")).show(25, 80).is_empty());
}

#[test]
fn bar_persists_below_the_output() {
    for row in 1..=6 {
        let mut terminal = Terminal::new(6, row);
        let mut status = StatusBar::new(None);
        status.capture(b"FPS 66");
        terminal.receive(&status.show(6, 80));
        assert!(terminal.row <= 5);
        assert_eq!(terminal.lines[5], b"FPS 66".to_vec());
        if row == 6 {
            assert_eq!(terminal.lines[4], b"line 6".to_vec());
        } else {
            assert_eq!(terminal.lines[4], b"line 5".to_vec());
        }
        for _ in 0..10 {
            terminal.receive(b"\nlog");
        }
        assert_eq!(terminal.row, 5);
        assert_eq!(terminal.lines[4], b"log".to_vec());
        assert_eq!(terminal.lines[5], b"FPS 66".to_vec());
        status.capture(b"FPS 33");
        terminal.receive(&status.show(6, 80));
        assert_eq!(terminal.row, 5);
        assert_eq!(terminal.lines[4], b"log".to_vec());
        assert_eq!(terminal.lines[5], b"FPS 33".to_vec());
        terminal.receive(&status.release());
        assert_eq!((terminal.row, terminal.bottom), (5, 6));
    }
}
