//! The status bar.
//!
//! The server writes its status line straight to screen coordinates. The launcher keeps that text
//! and draws it in the bottom row of the terminal, with a scroll region above it, so that ordinary
//! output scrolls past the bar.
use crate::terminal::{
    after_all, encoded, is_output, law_output_scrolls_past_the_bar, lemma_one_more,
    lemma_sent_later, send, Control, Order, Screen,
};
use vstd::prelude::*;
use vstd::string::StrSliceExecFns;

verus! {

/// The status bar of the launcher.
pub struct StatusBar {
    enabled: bool,
    text: Vec<u8>,
    reserved: u32,
}

/// The smallest number of rows on which the bar is drawn: a scroll region has at least two rows.
pub const MINIMUM_ROWS: u32 = 3;

/// A blank or a tab.
pub open spec fn is_blank(c: char) -> bool {
    c == ' ' || c == '\t'
}

/// The text without the blanks at its ends.
pub open spec fn trimmed(s: Seq<char>) -> Seq<char>
    decreases s.len(),
{
    if s.len() > 0 && is_blank(s.first()) {
        trimmed(s.drop_first())
    } else if s.len() > 0 && is_blank(s.last()) {
        trimmed(s.drop_last())
    } else {
        s
    }
}

/// The value of `SRCDS_NO_STATUS` asks for no status bar: up to blanks at its ends it is `1` or
/// `true`.
pub open spec fn turned_off(value: Option<Seq<char>>) -> bool {
    match value {
        Some(text) => trimmed(text) == "1"@ || trimmed(text) == "true"@,
        None => false,
    }
}

/// Gives the text without the blanks at its ends.
fn trim(value: &str) -> (r: String)
    ensures
        r@ == trimmed(value@),
{
    let n: usize = value.unicode_len();
    let mut first: usize = 0;
    assert(value@.subrange(0, n as int) =~= value@);
    while first < n && (value.get_char(first) == ' ' || value.get_char(first) == '\t')
        invariant
            n == value@.len(),
            first <= n,
            trimmed(value@.subrange(first as int, n as int)) == trimmed(value@),
        decreases n - first,
    {
        assert(value@.subrange(first as int, n as int).drop_first() =~= value@.subrange(
            first + 1,
            n as int,
        ));
        first = first + 1;
    }
    let mut last: usize = n;
    while first < last && (value.get_char(last - 1) == ' ' || value.get_char(last - 1) == '\t')
        invariant
            n == value@.len(),
            first <= last <= n,
            first < last ==> !is_blank(value@[first as int]),
            trimmed(value@.subrange(first as int, last as int)) == trimmed(value@),
        decreases last - first,
    {
        assert(value@.subrange(first as int, last as int).drop_last() =~= value@.subrange(
            first as int,
            last - 1,
        ));
        last = last - 1;
    }
    value.substring_char(first, last).to_owned()
}

/// A byte as it appears in the status bar: a printable ASCII character, or a blank.
pub open spec fn printable(b: u8) -> u8 {
    if 0x20 <= b < 0x7f {
        b
    } else {
        0x20
    }
}

/// The part of the text that fits in a row of the terminal.
pub open spec fn bar_text(text: Seq<u8>, columns: nat) -> Seq<u8> {
    let n = if text.len() < columns {
        text.len()
    } else {
        columns
    };
    Seq::new(n, |i: int| printable(text[i]))
}

/// What frees the bottom row for the bar: all rows scroll, and output that has reached the last row
/// moves up by one.
pub open spec fn reserving() -> Seq<Control> {
    seq![Control::Save, Control::FullRegion, Control::Restore, Control::LineFeed, Control::Up]
}

/// What draws `text` in the bottom row of a terminal and leaves the cursor where it is.
pub open spec fn drawing(text: Seq<u8>, rows: nat, columns: nat) -> Seq<Control> {
    seq![
        Control::Save,
        Control::Region((rows - 1) as nat),
        Control::MoveTo(rows),
        Control::ClearLine,
        Control::Write(bar_text(text, columns)),
        Control::Restore,
    ]
}

/// What shows `text` in the bottom row of a terminal that had `reserved` rows when its bottom row was
/// last asked for: the row is reserved first if the number of rows is another one now.
pub open spec fn showing(reserved: nat, text: Seq<u8>, rows: nat, columns: nat) -> Seq<Control> {
    if rows == reserved {
        drawing(text, rows, columns)
    } else {
        reserving() + drawing(text, rows, columns)
    }
}

/// What returns all rows to ordinary output and leaves the cursor where it is.
pub open spec fn releasing() -> Seq<Control> {
    seq![Control::Save, Control::FullRegion, Control::Restore]
}

/// The text of the bar fits in one row and holds nothing that would move the cursor out of it.
pub proof fn law_bar_stays_in_its_row(text: Seq<u8>, columns: nat)
    ensures
        bar_text(text, columns).len() <= columns,
        forall|i: int|
            0 <= i < bar_text(text, columns).len() ==> 0x20 <= #[trigger] bar_text(
                text,
                columns,
            )[i] < 0x7f,
{
}

/// Reserving moves the cursor out of the bottom row. The lines stay as they are, unless the cursor
/// stood in the bottom row: then they move up by one.
pub proof fn law_reserving_frees_the_bottom_row(s: Screen)
    requires
        s.valid(),
    ensures
        after_all(s, reserving()).valid(),
        after_all(s, reserving()).rows() == s.rows(),
        after_all(s, reserving()).row < s.rows(),
        after_all(s, reserving()).lines == if s.row < s.rows() {
            s.lines
        } else {
            s.lines.drop_first().push(Seq::empty())
        },
{
    let none = Seq::<Control>::empty();
    let c1 = none.push(Control::Save);
    let c2 = c1.push(Control::FullRegion);
    let c3 = c2.push(Control::Restore);
    let c4 = c3.push(Control::LineFeed);
    lemma_one_more(s, none, Control::Save);
    lemma_one_more(s, c1, Control::FullRegion);
    lemma_one_more(s, c2, Control::Restore);
    lemma_one_more(s, c3, Control::LineFeed);
    lemma_one_more(s, c4, Control::Up);
    assert(c4.push(Control::Up) =~= reserving());
    if s.row == s.rows() {
        assert(after_all(s, reserving()).lines =~= s.lines.drop_first().push(Seq::empty()));
    }
}

/// Drawing puts the text in the bottom row and takes that row out of the scroll region. No other
/// line changes, and the cursor comes back to its row.
pub proof fn law_drawing_changes_the_bottom_row_only(s: Screen, text: Seq<u8>, columns: nat)
    requires
        s.valid(),
        s.row < s.rows(),
    ensures
        after_all(s, drawing(text, s.rows(), columns)).bar_is_safe(),
        after_all(s, drawing(text, s.rows(), columns)).row == s.row,
        after_all(s, drawing(text, s.rows(), columns)).lines == s.lines.update(
            s.rows() - 1,
            bar_text(text, columns),
        ),
{
    let rows = s.rows();
    let none = Seq::<Control>::empty();
    let c1 = none.push(Control::Save);
    let c2 = c1.push(Control::Region((rows - 1) as nat));
    let c3 = c2.push(Control::MoveTo(rows));
    let c4 = c3.push(Control::ClearLine);
    let c5 = c4.push(Control::Write(bar_text(text, columns)));
    lemma_one_more(s, none, Control::Save);
    lemma_one_more(s, c1, Control::Region((rows - 1) as nat));
    lemma_one_more(s, c2, Control::MoveTo(rows));
    lemma_one_more(s, c3, Control::ClearLine);
    lemma_one_more(s, c4, Control::Write(bar_text(text, columns)));
    lemma_one_more(s, c5, Control::Restore);
    assert(c5.push(Control::Restore) =~= drawing(text, rows, columns));
    let cleared = after_all(s, c4);
    assert(cleared.lines[rows - 1] + bar_text(text, columns) =~= bar_text(text, columns));
    assert(after_all(s, drawing(text, rows, columns)).lines =~= s.lines.update(
        rows - 1,
        bar_text(text, columns),
    ));
}

/// Showing the bar puts its text in the bottom row and leaves the cursor above it, wherever the cursor
/// stood when the row was not reserved yet.
pub proof fn law_shown_bar_is_safe(s: Screen, reserved: nat, text: Seq<u8>, columns: nat)
    requires
        s.valid(),
        s.rows() == reserved ==> s.row < s.rows(),
    ensures
        ({
            let shown = after_all(s, showing(reserved, text, s.rows(), columns));
            &&& shown.rows() == s.rows()
            &&& shown.row <= s.rows() - 1
            &&& shown.bar() == bar_text(text, columns)
            &&& shown.bar_is_safe()
            &&& s.row < s.rows() ==> shown.lines == s.lines.update(
                s.rows() - 1,
                bar_text(text, columns),
            )
        }),
{
    if s.rows() == reserved {
        law_drawing_changes_the_bottom_row_only(s, text, columns);
    } else {
        let free = after_all(s, reserving());
        lemma_sent_later(s, reserving(), drawing(text, s.rows(), columns));
        law_reserving_frees_the_bottom_row(s);
        law_drawing_changes_the_bottom_row_only(free, text, columns);
    }
}

/// The bar persists. Wherever the cursor stood when the bar was first shown, ordinary output then
/// leaves the bar in place and the cursor above it. Showing the bar again replaces the text of the bar
/// and nothing else, and brings the cursor back to its row.
pub proof fn law_bar_persists(
    s: Screen,
    reserved: nat,
    text: Seq<u8>,
    columns: nat,
    output: Seq<Control>,
    later: Seq<u8>,
)
    requires
        s.valid(),
        s.rows() == reserved ==> s.row < s.rows(),
        is_output(output),
    ensures
        ({
            let shown = after_all(s, showing(reserved, text, s.rows(), columns));
            let written = after_all(shown, output);
            let again = after_all(written, showing(s.rows(), later, s.rows(), columns));
            &&& shown.row <= s.rows() - 1
            &&& shown.bar() == bar_text(text, columns)
            &&& written.row <= s.rows() - 1
            &&& written.bar() == bar_text(text, columns)
            &&& again.bar_is_safe()
            &&& again.row == written.row
            &&& again.lines == written.lines.update(s.rows() - 1, bar_text(later, columns))
        }),
{
    let shown = after_all(s, showing(reserved, text, s.rows(), columns));
    law_shown_bar_is_safe(s, reserved, text, columns);
    law_output_scrolls_past_the_bar(shown, output);
    law_drawing_changes_the_bottom_row_only(after_all(shown, output), later, columns);
}

/// Releasing leaves the lines and the row of the cursor as they are, and all rows scroll again.
pub proof fn law_releasing_returns_all_rows(s: Screen)
    ensures
        after_all(s, releasing()).lines == s.lines,
        after_all(s, releasing()).row == s.row,
        after_all(s, releasing()).bottom == s.rows(),
{
    let none = Seq::<Control>::empty();
    let c1 = none.push(Control::Save);
    let c2 = c1.push(Control::FullRegion);
    lemma_one_more(s, none, Control::Save);
    lemma_one_more(s, c1, Control::FullRegion);
    lemma_one_more(s, c2, Control::Restore);
    assert(c2.push(Control::Restore) =~= releasing());
}

impl StatusBar {
    /// The bar is to be drawn.
    pub closed spec fn enabled(self) -> bool {
        self.enabled
    }

    /// The text that was captured last.
    pub closed spec fn text(self) -> Seq<u8> {
        self.text@
    }

    /// The number of rows of the terminal when its bottom row was last asked for; zero if it never
    /// was.
    pub closed spec fn reserved(self) -> u32 {
        self.reserved
    }

    /// Makes an empty bar. It is drawn unless the value of `SRCDS_NO_STATUS` is `1` or `true`.
    pub fn new(no_status: Option<&str>) -> (r: StatusBar)
        ensures
            r.enabled() == !turned_off(
                match no_status {
                    Some(value) => Some(value@),
                    None => None,
                },
            ),
            r.text() == Seq::<u8>::empty(),
            r.reserved() == 0,
    {
        let off: bool = match no_status {
            Some(value) => {
                let value: String = trim(value);
                value == "1".to_owned() || value == "true".to_owned()
            },
            None => false,
        };
        StatusBar { enabled: !off, text: Vec::new(), reserved: 0 }
    }

    /// Keeps `text` as the text of the bar.
    pub fn capture(&mut self, text: &[u8])
        ensures
            final(self).enabled() == old(self).enabled(),
            final(self).reserved() == old(self).reserved(),
            final(self).text() == text@,
    {
        self.text = vstd::slice::slice_to_vec(text);
    }

    /// Gives what frees the bottom row of a terminal with the given number of rows, before the bar is
    /// drawn there for the first time and whenever the number of rows has changed since. Otherwise,
    /// and if nothing is drawn, there is nothing to send.
    pub fn reserve(&mut self, rows: u32) -> (r: Vec<u8>)
        ensures
            final(self).enabled() == old(self).enabled(),
            final(self).text() == old(self).text(),
            final(self).reserved() == rows,
            r@ == if old(self).enabled() && rows >= MINIMUM_ROWS && rows != old(self).reserved() {
                encoded(reserving())
            } else {
                Seq::empty()
            },
    {
        let mut out: Vec<u8> = Vec::new();
        let reserved: u32 = self.reserved;
        self.reserved = rows;
        if !self.enabled || rows < MINIMUM_ROWS || rows == reserved {
            return out;
        }
        let orders: [Order; 5] = [
            Order::Save,
            Order::FullRegion,
            Order::Restore,
            Order::LineFeed,
            Order::Up,
        ];
        send_all(&mut out, &orders);
        assert(views(orders@) =~= reserving());
        out
    }

    /// Gives what draws the bar on a terminal with the given number of rows and columns. Nothing is
    /// drawn if the bar is turned off or the terminal has no row to spare for it.
    pub fn draw(&self, rows: u32, columns: u32) -> (r: Vec<u8>)
        ensures
            r@ == if self.enabled() && rows >= MINIMUM_ROWS {
                encoded(drawing(self.text(), rows as nat, columns as nat))
            } else {
                Seq::empty()
            },
    {
        let mut out: Vec<u8> = Vec::new();
        if !self.enabled || rows < MINIMUM_ROWS {
            return out;
        }
        let orders: [Order; 4] = [
            Order::Save,
            Order::Region(rows - 1),
            Order::MoveTo(rows),
            Order::ClearLine,
        ];
        send_all(&mut out, &orders);
        let ghost before = out@;
        let n: usize = self.text.len();
        let mut i: usize = 0;
        while i < n && (i as u64) < columns as u64
            invariant
                n == self.text@.len(),
                i <= n,
                i <= columns,
                out@ == before + bar_text(self.text@, i as nat),
            decreases n - i,
        {
            let b: u8 = self.text[i];
            out.push(
                if 0x20 <= b && b < 0x7f {
                    b
                } else {
                    0x20
                },
            );
            i = i + 1;
            assert(bar_text(self.text@, i as nat) =~= bar_text(self.text@, (i - 1) as nat).push(
                printable(b),
            ));
        }
        assert(bar_text(self.text@, i as nat) =~= bar_text(self.text@, columns as nat));
        send(&mut out, Order::Restore);
        proof {
            let text = Control::Write(bar_text(self.text@, columns as nat));
            let placed = views(orders@);
            let any = arbitrary::<Screen>();
            lemma_one_more(any, placed, text);
            lemma_one_more(any, placed.push(text), Control::Restore);
            assert(placed.push(text).push(Control::Restore) =~= drawing(
                self.text@,
                rows as nat,
                columns as nat,
            ));
        }
        out
    }

    /// Gives what shows the bar on a terminal with the given number of rows and columns: what frees the
    /// bottom row where that is due, and what draws the bar there.
    pub fn show(&mut self, rows: u32, columns: u32) -> (r: Vec<u8>)
        ensures
            final(self).enabled() == old(self).enabled(),
            final(self).text() == old(self).text(),
            final(self).reserved() == rows,
            r@ == if old(self).enabled() && rows >= MINIMUM_ROWS {
                encoded(
                    showing(
                        old(self).reserved() as nat,
                        old(self).text(),
                        rows as nat,
                        columns as nat,
                    ),
                )
            } else {
                Seq::empty()
            },
    {
        let ghost text = self.text();
        let mut out: Vec<u8> = self.reserve(rows);
        let mut bar: Vec<u8> = self.draw(rows, columns);
        out.append(&mut bar);
        proof {
            lemma_sent_later(
                arbitrary::<Screen>(),
                reserving(),
                drawing(text, rows as nat, columns as nat),
            );
        }
        out
    }

    /// Gives what returns all rows of the terminal to ordinary output and leaves the cursor where it
    /// is. There is nothing to return if the bar is turned off.
    pub fn release(&self) -> (r: Vec<u8>)
        ensures
            r@ == if self.enabled() {
                encoded(releasing())
            } else {
                Seq::empty()
            },
    {
        let mut out: Vec<u8> = Vec::new();
        if self.enabled {
            let orders: [Order; 3] = [Order::Save, Order::FullRegion, Order::Restore];
            send_all(&mut out, &orders);
            assert(views(orders@) =~= releasing());
        }
        out
    }
}

/// The controls that some orders stand for.
spec fn views(orders: Seq<Order>) -> Seq<Control> {
    Seq::new(orders.len(), |i: int| orders[i]@)
}

/// Adds the bytes of some orders to the end of an empty `out`.
fn send_all(out: &mut Vec<u8>, orders: &[Order])
    requires
        old(out)@ == Seq::<u8>::empty(),
    ensures
        final(out)@ == encoded(views(orders@)),
{
    let n: usize = orders.len();
    let mut i: usize = 0;
    while i < n
        invariant
            n == orders@.len(),
            i <= n,
            out@ == encoded(views(orders@.take(i as int))),
        decreases n - i,
    {
        send(out, orders[i]);
        i = i + 1;
        proof {
            let before = views(orders@.take(i - 1));
            lemma_one_more(arbitrary::<Screen>(), before, orders@[i - 1]@);
            assert(before.push(orders@[i - 1]@) =~= views(orders@.take(i as int)));
        }
    }
    assert(orders@.take(n as int) =~= orders@);
}

/// The bar shows the captured text. Whatever the text is, the bottom row of the screen holds as much of
/// it as there are columns for: every printable character stands in it unchanged and at its own place,
/// and a blank takes the place of every other byte. No more stands in that row.
pub proof fn law_bar_shows_the_text(s: Screen, reserved: nat, text: Seq<u8>, columns: nat)
    requires
        s.valid(),
        s.rows() == reserved ==> s.row < s.rows(),
    ensures
        ({
            let bottom = after_all(s, showing(reserved, text, s.rows(), columns)).lines[s.rows()
                - 1];
            &&& text.len() <= columns ==> bottom.len() == text.len()
            &&& text.len() > columns ==> bottom.len() == columns
            &&& forall|i: int|
                0 <= i < text.len() && i < columns && 0x20 <= text[i] <= 0x7e ==> #[trigger] bottom[i]
                    == text[i]
            &&& forall|i: int|
                0 <= i < text.len() && i < columns && !(0x20 <= text[i] <= 0x7e)
                    ==> #[trigger] bottom[i] == 0x20
        }),
{
    law_shown_bar_is_safe(s, reserved, text, columns);
}

/// The same holds of a text that is drawn in a row that was reserved before.
pub proof fn law_drawing_shows_the_text(s: Screen, text: Seq<u8>, columns: nat)
    requires
        s.valid(),
        s.row < s.rows(),
    ensures
        ({
            let bottom = after_all(s, drawing(text, s.rows(), columns)).lines[s.rows() - 1];
            &&& text.len() <= columns ==> bottom.len() == text.len()
            &&& text.len() > columns ==> bottom.len() == columns
            &&& forall|i: int|
                0 <= i < text.len() && i < columns && 0x20 <= text[i] <= 0x7e ==> #[trigger] bottom[i]
                    == text[i]
            &&& forall|i: int|
                0 <= i < text.len() && i < columns && !(0x20 <= text[i] <= 0x7e)
                    ==> #[trigger] bottom[i] == 0x20
        }),
{
    law_drawing_changes_the_bottom_row_only(s, text, columns);
}

/// The text is made of blanks and tabs alone.
pub open spec fn all_blank(s: Seq<char>) -> bool {
    forall|i: int| 0 <= i < s.len() ==> #[trigger] s[i] == ' ' || s[i] == '\t'
}

/// A blank more at either end of a text of blanks makes a text of blanks.
proof fn lemma_one_more_blank(s: Seq<char>, c: char)
    requires
        all_blank(s),
        c == ' ' || c == '\t',
    ensures
        all_blank(seq![c] + s),
        all_blank(s.push(c)),
{
    let first = seq![c] + s;
    let last = s.push(c);
    assert forall|i: int| 0 <= i < first.len() implies #[trigger] first[i] == ' ' || first[i]
        == '\t' by {
        if i > 0 {
            assert(first[i] == s[i - 1]);
        }
    }
    assert forall|i: int| 0 <= i < last.len() implies #[trigger] last[i] == ' ' || last[i]
        == '\t' by {
        if i < s.len() {
            assert(last[i] == s[i]);
        }
    }
}

#[verifier::spinoff_prover]
proof fn lemma_trimmed_parts(s: Seq<char>) -> (parts: (Seq<char>, Seq<char>))
    ensures
        all_blank(parts.0),
        all_blank(parts.1),
        s == parts.0 + trimmed(s) + parts.1,
    decreases s.len(),
{
    let none = Seq::<char>::empty();
    let core = trimmed(s);
    if s.len() > 0 && is_blank(s.first()) {
        let c = s.first();
        let rest = s.drop_first();
        let (a, b) = lemma_trimmed_parts(rest);
        lemma_one_more_blank(a, c);
        assert(core == trimmed(rest));
        assert(s =~= seq![c] + rest);
        assert(seq![c] + (a + core + b) =~= seq![c] + a + core + b);
        (seq![c] + a, b)
    } else if s.len() > 0 && is_blank(s.last()) {
        let c = s.last();
        let rest = s.drop_last();
        let (a, b) = lemma_trimmed_parts(rest);
        lemma_one_more_blank(b, c);
        assert(core == trimmed(rest));
        assert(s =~= rest.push(c));
        assert((a + core + b).push(c) =~= a + core + b.push(c));
        (a, b.push(c))
    } else {
        assert(core == s);
        assert(none + s + none =~= s);
        (none, none)
    }
}

#[verifier::spinoff_prover]
proof fn lemma_trimmed_is(before: Seq<char>, core: Seq<char>, behind: Seq<char>)
    requires
        all_blank(before),
        all_blank(behind),
        core.len() > 0,
        core.first() != ' ' && core.first() != '\t',
        core.last() != ' ' && core.last() != '\t',
    ensures
        trimmed(before + core + behind) == core,
    decreases before.len() + behind.len(),
{
    let s = before + core + behind;
    if before.len() > 0 {
        assert(before[0] == ' ' || before[0] == '\t');
        assert(s.first() == before[0]);
        assert(s.drop_first() =~= before.drop_first() + core + behind);
        assert forall|i: int| 0 <= i < before.drop_first().len() implies #[trigger] before.drop_first()[i]
            == ' ' || before.drop_first()[i] == '\t' by {
            assert(before.drop_first()[i] == before[i + 1]);
        }
        lemma_trimmed_is(before.drop_first(), core, behind);
    } else if behind.len() > 0 {
        assert(s.first() == core.first());
        assert(behind[behind.len() - 1] == ' ' || behind[behind.len() - 1] == '\t');
        assert(s.last() == behind.last());
        assert(s.drop_last() =~= before + core + behind.drop_last());
        lemma_trimmed_is(before, core, behind.drop_last());
    } else {
        assert(s =~= core);
    }
}

/// The bar is turned off by `1` and by `true`, whatever blanks and tabs stand around them.
pub proof fn law_setting_turns_the_bar_off(before: Seq<char>, behind: Seq<char>)
    requires
        all_blank(before),
        all_blank(behind),
    ensures
        turned_off(Some(before + seq!['1'] + behind)),
        turned_off(Some(before + seq!['t', 'r', 'u', 'e'] + behind)),
{
    reveal_strlit("1");
    reveal_strlit("true");
    assert("1"@ =~= seq!['1']);
    assert("true"@ =~= seq!['t', 'r', 'u', 'e']);
    lemma_trimmed_is(before, seq!['1'], behind);
    lemma_trimmed_is(before, seq!['t', 'r', 'u', 'e'], behind);
}

/// The bar is turned off by nothing else.
pub proof fn law_other_settings_leave_the_bar_on(value: Option<Seq<char>>)
    requires
        turned_off(value),
    ensures
        value is Some,
        exists|before: Seq<char>, behind: Seq<char>|
            #![trigger all_blank(before), all_blank(behind)]
            {
                &&& all_blank(before)
                &&& all_blank(behind)
                &&& {
                    ||| value->0 == before + seq!['1'] + behind
                    ||| value->0 == before + seq!['t', 'r', 'u', 'e'] + behind
                }
            },
{
    reveal_strlit("1");
    reveal_strlit("true");
    assert("1"@ =~= seq!['1']);
    assert("true"@ =~= seq!['t', 'r', 'u', 'e']);
    let (before, behind) = lemma_trimmed_parts(value->0);
    assert(all_blank(before) && all_blank(behind));
}

} // verus!
