//! Terminal control sequences and what they do to the screen.
//!
//! The screen is a list of lines with a cursor that stands in one of them. Columns do not matter here:
//! a line holds what was written in its row.
use crate::names::{ascii, is_name};
use crate::text::{decimal, denotes, law_numeral_reads_back, lemma_quotient_is_less, numeral};
use vstd::prelude::*;

verus! {

/// Something that is sent to a terminal. Rows are counted from 1.
pub enum Control {
    /// Keep the position of the cursor.
    Save,
    /// Bring the cursor back to the position that was kept last.
    Restore,
    /// Make all rows the scroll region.
    FullRegion,
    /// Make the rows from the first one to this one the scroll region.
    Region(nat),
    /// Move the cursor to the beginning of this row.
    MoveTo(nat),
    /// Clear the row of the cursor.
    ClearLine,
    /// Move the cursor down, and scroll if it stands at the end of the scroll region.
    LineFeed,
    /// Move the cursor up.
    Up,
    /// Write text in the row of the cursor.
    Write(Seq<u8>),
}

/// The bytes that a terminal receives.
pub open spec fn code(c: Control) -> Seq<u8> {
    match c {
        Control::Save => ascii("\u{1b}7"@),
        Control::Restore => ascii("\u{1b}8"@),
        Control::FullRegion => ascii("\u{1b}[r"@),
        Control::Region(bottom) => ascii("\u{1b}[1;"@) + ascii(numeral(bottom, 10)) + ascii("r"@),
        Control::MoveTo(row) => ascii("\u{1b}["@) + ascii(numeral(row, 10)) + ascii(";1H"@),
        Control::ClearLine => ascii("\u{1b}[2K"@),
        Control::LineFeed => ascii("\n"@),
        Control::Up => ascii("\u{1b}[A"@),
        Control::Write(text) => text,
    }
}

/// The bytes that a terminal receives for several controls.
pub open spec fn encoded(controls: Seq<Control>) -> Seq<u8>
    decreases controls.len(),
{
    if controls.len() == 0 {
        Seq::empty()
    } else {
        encoded(controls.drop_last()) + code(controls.last())
    }
}

/// The screen of a terminal.
pub struct Screen {
    /// The text in each row, from the top one down.
    pub lines: Seq<Seq<u8>>,
    /// The last row of the scroll region, which begins at the first row.
    pub bottom: int,
    /// The row of the cursor.
    pub row: int,
    /// The row that was kept last.
    pub saved: int,
}

impl Screen {
    /// The number of rows.
    pub open spec fn rows(self) -> nat {
        self.lines.len()
    }

    /// The cursor and the end of the scroll region lie on the screen, and there is room for a scroll
    /// region of two rows above the last row.
    pub open spec fn valid(self) -> bool {
        &&& self.rows() >= 3
        &&& 1 <= self.bottom <= self.rows()
        &&& 1 <= self.row <= self.rows()
    }

    /// The last row lies outside the scroll region, and the cursor does not stand in it.
    pub open spec fn bar_is_safe(self) -> bool {
        &&& self.valid()
        &&& self.bottom == self.rows() - 1
        &&& self.row < self.rows()
    }

    /// The text in the last row.
    pub open spec fn bar(self) -> Seq<u8> {
        self.lines.last()
    }
}

/// The lines with the first `n` of them moved up by one, so that the top one is gone and a blank one
/// takes the last place among them.
pub open spec fn scrolled(lines: Seq<Seq<u8>>, n: int) -> Seq<Seq<u8>> {
    lines.subrange(1, n).push(Seq::empty()) + lines.subrange(n, lines.len() as int)
}

/// The screen after a control.
pub open spec fn after(s: Screen, c: Control) -> Screen {
    match c {
        Control::Save => Screen { saved: s.row, ..s },
        Control::Restore => Screen { row: s.saved, ..s },
        Control::FullRegion => Screen { bottom: s.rows() as int, row: 1, ..s },
        Control::Region(bottom) => if 2 <= bottom <= s.rows() {
            Screen { bottom: bottom as int, row: 1, ..s }
        } else {
            s
        },
        Control::MoveTo(row) => if 1 <= row <= s.rows() {
            Screen { row: row as int, ..s }
        } else {
            s
        },
        Control::ClearLine => Screen { lines: s.lines.update(s.row - 1, Seq::empty()), ..s },
        Control::LineFeed => if s.row == s.bottom {
            Screen { lines: scrolled(s.lines, s.bottom), ..s }
        } else if s.row < s.rows() {
            Screen { row: s.row + 1, ..s }
        } else {
            s
        },
        Control::Up => if s.row > 1 {
            Screen { row: s.row - 1, ..s }
        } else {
            s
        },
        Control::Write(text) => Screen {
            lines: s.lines.update(s.row - 1, s.lines[s.row - 1] + text),
            ..s
        },
    }
}

/// The screen after several controls.
pub open spec fn after_all(s: Screen, controls: Seq<Control>) -> Screen
    decreases controls.len(),
{
    if controls.len() == 0 {
        s
    } else {
        after(after_all(s, controls.drop_last()), controls.last())
    }
}

/// One more control adds its own bytes and its own effect.
pub proof fn lemma_one_more(s: Screen, controls: Seq<Control>, c: Control)
    ensures
        encoded(controls.push(c)) == encoded(controls) + code(c),
        after_all(s, controls.push(c)) == after(after_all(s, controls), c),
{
    assert(controls.push(c).drop_last() =~= controls);
}

/// What is sent later adds its bytes and its effect to what was sent before.
pub proof fn lemma_sent_later(s: Screen, first: Seq<Control>, later: Seq<Control>)
    ensures
        encoded(first + later) == encoded(first) + encoded(later),
        after_all(s, first + later) == after_all(after_all(s, first), later),
    decreases later.len(),
{
    if later.len() == 0 {
        assert(first + later =~= first);
    } else {
        assert((first + later).drop_last() =~= first + later.drop_last());
        lemma_sent_later(s, first, later.drop_last());
    }
}

/// Ordinary output is text and line feeds. Text that is too long for a row wraps: it is several pieces
/// with a line feed between them.
pub open spec fn is_output(controls: Seq<Control>) -> bool {
    forall|i: int|
        0 <= i < controls.len() ==> (#[trigger] controls[i] is LineFeed || controls[i] is Write)
}

/// Once the last row is safe, ordinary output scrolls past it: whatever is written, the last row
/// keeps its text and stays safe.
pub proof fn law_output_scrolls_past_the_bar(s: Screen, output: Seq<Control>)
    requires
        s.bar_is_safe(),
        is_output(output),
    ensures
        after_all(s, output).bar_is_safe(),
        after_all(s, output).rows() == s.rows(),
        after_all(s, output).bar() == s.bar(),
    decreases output.len(),
{
    if output.len() > 0 {
        let before = output.drop_last();
        assert forall|i: int| 0 <= i < before.len() implies (#[trigger] before[i] is LineFeed
            || before[i] is Write) by {
            assert(before[i] == output[i]);
        }
        law_output_scrolls_past_the_bar(s, before);
        assert(output[output.len() - 1] is LineFeed || output[output.len() - 1] is Write);
    }
}

/// A control as it is sent; text is sent as it stands.
#[derive(Clone, Copy, Debug)]
pub enum Order {
    Save,
    Restore,
    FullRegion,
    Region(u32),
    MoveTo(u32),
    ClearLine,
    LineFeed,
    Up,
}

impl View for Order {
    type V = Control;

    open spec fn view(&self) -> Control {
        match *self {
            Order::Save => Control::Save,
            Order::Restore => Control::Restore,
            Order::FullRegion => Control::FullRegion,
            Order::Region(bottom) => Control::Region(bottom as nat),
            Order::MoveTo(row) => Control::MoveTo(row as nat),
            Order::ClearLine => Control::ClearLine,
            Order::LineFeed => Control::LineFeed,
            Order::Up => Control::Up,
        }
    }
}

/// Decimal digits are ASCII characters.
proof fn lemma_decimal_is_name(v: nat)
    ensures
        is_name(numeral(v, 10)),
    decreases v,
{
    if v >= 10 {
        lemma_quotient_is_less(v as int, 10);
        lemma_decimal_is_name(v / 10);
    }
}

/// Adds an ASCII string to the end of `out`.
fn append_ascii(out: &mut Vec<u8>, s: &str)
    requires
        is_name(s@),
    ensures
        final(out)@ == old(out)@ + ascii(s@),
{
    proof {
        vstd::utf8::is_ascii_chars_encode_utf8(s@);
    }
    let bytes: &[u8] = s.as_bytes();
    assert(bytes@ =~= ascii(s@));
    let n: usize = bytes.len();
    let mut i: usize = 0;
    while i < n
        invariant
            n == bytes@.len(),
            bytes@ == ascii(s@),
            i <= n,
            out@ == old(out)@ + bytes@.take(i as int),
        decreases n - i,
    {
        out.push(bytes[i]);
        i = i + 1;
        assert(bytes@.take(i as int) =~= bytes@.take(i - 1).push(bytes@[i - 1]));
    }
    assert(bytes@.take(n as int) =~= bytes@);
}

/// Adds a number between two ASCII strings to the end of `out`.
fn append_numbered(out: &mut Vec<u8>, first: &str, number: u32, last: &str)
    requires
        is_name(first@),
        is_name(last@),
    ensures
        final(out)@ == old(out)@ + (ascii(first@) + ascii(numeral(number as nat, 10)) + ascii(
            last@,
        )),
{
    proof {
        lemma_decimal_is_name(number as nat);
    }
    append_ascii(out, first);
    append_ascii(out, decimal(number as u64).as_str());
    append_ascii(out, last);
    assert(out@ =~= old(out)@ + (ascii(first@) + ascii(numeral(number as nat, 10)) + ascii(
        last@,
    )));
}

/// Adds the bytes of an order to the end of `out`.
pub fn send(out: &mut Vec<u8>, order: Order)
    ensures
        final(out)@ == old(out)@ + code(order@),
{
    proof {
        reveal_strlit("\u{1b}7");
        reveal_strlit("\u{1b}8");
        reveal_strlit("\u{1b}[r");
        reveal_strlit("\u{1b}[1;");
        reveal_strlit("r");
        reveal_strlit("\u{1b}[");
        reveal_strlit(";1H");
        reveal_strlit("\u{1b}[2K");
        reveal_strlit("\n");
        reveal_strlit("\u{1b}[A");
    }
    match order {
        Order::Save => append_ascii(out, "\u{1b}7"),
        Order::Restore => append_ascii(out, "\u{1b}8"),
        Order::FullRegion => append_ascii(out, "\u{1b}[r"),
        Order::Region(bottom) => append_numbered(out, "\u{1b}[1;", bottom, "r"),
        Order::MoveTo(row) => append_numbered(out, "\u{1b}[", row, ";1H"),
        Order::ClearLine => append_ascii(out, "\u{1b}[2K"),
        Order::LineFeed => append_ascii(out, "\n"),
        Order::Up => append_ascii(out, "\u{1b}[A"),
    }
}

/// What a terminal receives for each control: the escape byte and the sequence that stands for it, with
/// the row in decimal digits where there is one.
pub proof fn law_bytes_of_controls(row: nat)
    ensures
        code(Control::Save) == seq![0x1bu8, 0x37],
        code(Control::Restore) == seq![0x1bu8, 0x38],
        code(Control::FullRegion) == seq![0x1bu8, 0x5b, 0x72],
        code(Control::ClearLine) == seq![0x1bu8, 0x5b, 0x32, 0x4b],
        code(Control::LineFeed) == seq![0x0au8],
        code(Control::Up) == seq![0x1bu8, 0x5b, 0x41],
        exists|digits: Seq<char>| #[trigger]
            denotes(digits, row as int, 10) && (row > 0 ==> digits[0] != '0') && code(
                Control::Region(row),
            ) == seq![0x1bu8, 0x5b, 0x31, 0x3b] + ascii(digits) + seq![0x72u8],
        exists|digits: Seq<char>| #[trigger]
            denotes(digits, row as int, 10) && (row > 0 ==> digits[0] != '0') && code(
                Control::MoveTo(row),
            ) == seq![0x1bu8, 0x5b] + ascii(digits) + seq![0x3bu8, 0x31, 0x48],
        forall|text: Seq<u8>| #[trigger] code(Control::Write(text)) == text,
{
    reveal_strlit("\u{1b}7");
    reveal_strlit("\u{1b}8");
    reveal_strlit("\u{1b}[r");
    reveal_strlit("\u{1b}[1;");
    reveal_strlit("r");
    reveal_strlit("\u{1b}[");
    reveal_strlit(";1H");
    reveal_strlit("\u{1b}[2K");
    reveal_strlit("\n");
    reveal_strlit("\u{1b}[A");
    law_numeral_reads_back(row, 10);
    let digits = numeral(row, 10);
    assert(code(Control::Save) =~= seq![0x1bu8, 0x37]);
    assert(code(Control::Restore) =~= seq![0x1bu8, 0x38]);
    assert(code(Control::FullRegion) =~= seq![0x1bu8, 0x5b, 0x72]);
    assert(code(Control::ClearLine) =~= seq![0x1bu8, 0x5b, 0x32, 0x4b]);
    assert(code(Control::LineFeed) =~= seq![0x0au8]);
    assert(code(Control::Up) =~= seq![0x1bu8, 0x5b, 0x41]);
    assert(denotes(digits, row as int, 10));
    assert(code(Control::Region(row)) =~= seq![0x1bu8, 0x5b, 0x31, 0x3b] + ascii(digits)
        + seq![0x72u8]);
    assert(code(Control::MoveTo(row)) =~= seq![0x1bu8, 0x5b] + ascii(digits) + seq![
        0x3bu8,
        0x31,
        0x48,
    ]);
}

/// Nothing is sent for no control, the bytes of a control are sent as they are for it alone, and the
/// bytes of what is sent later follow those of what was sent before.
pub proof fn law_controls_are_sent_in_order(first: Seq<Control>, c: Control, later: Seq<Control>)
    ensures
        encoded(Seq::empty()) == Seq::<u8>::empty(),
        encoded(seq![c]) == code(c),
        encoded(first + seq![c] + later) == encoded(first) + code(c) + encoded(later),
{
    let any = arbitrary::<Screen>();
    let none = Seq::<Control>::empty();
    lemma_one_more(any, none, c);
    assert(none.push(c) =~= seq![c]);
    assert(encoded(none) + code(c) =~= code(c));
    lemma_sent_later(any, first, seq![c]);
    lemma_sent_later(any, first + seq![c], later);
}

} // verus!
