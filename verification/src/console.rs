//! What the redirected console functions answer.
use crate::status::StatusBar;
use vstd::prelude::*;

verus! {

/// The answer of a console function that succeeded.
pub const TRUE: i32 = 1;

/// The answer of a console function that failed.
pub const FALSE: i32 = 0;

/// A position or a size on the screen.
#[derive(Clone, Copy, PartialEq, Eq, Structural, Debug)]
pub struct Coord {
    pub x: i16,
    pub y: i16,
}

/// A rectangle on the screen; all four edges belong to it.
#[derive(Clone, Copy, PartialEq, Eq, Structural, Debug)]
pub struct SmallRect {
    pub left: i16,
    pub top: i16,
    pub right: i16,
    pub bottom: i16,
}

/// The state of a screen buffer.
#[derive(Clone, Copy, PartialEq, Eq, Structural, Debug)]
pub struct ScreenBufferInfo {
    pub size: Coord,
    pub cursor_position: Coord,
    pub attributes: u16,
    pub window: SmallRect,
    pub maximum_window_size: Coord,
}

/// The screen buffer that is reported when the console cannot be asked.
pub open spec fn default_info() -> ScreenBufferInfo {
    ScreenBufferInfo {
        size: Coord { x: 80, y: 25 },
        cursor_position: Coord { x: 0, y: 0 },
        attributes: 7,
        window: SmallRect { left: 0, top: 0, right: 79, bottom: 24 },
        maximum_window_size: Coord { x: 80, y: 25 },
    }
}

/// Takes the place of writing characters to screen coordinates. The characters become the text of
/// the status bar; nothing is written to the screen, and all `length` of them are reported as
/// written.
#[allow(non_snake_case)]
pub fn hooked_WriteConsoleOutputCharacterA(
    status: &mut StatusBar,
    characters: &[u8],
    length: u32,
    chars_written: Option<&mut u32>,
) -> (r: i32)
    ensures
        r == TRUE,
        r == 1,
        chars_written matches Some(written) ==> *final(written) == length,
        final(status).text() == characters@,
        final(status).enabled() == old(status).enabled(),
        final(status).reserved() == old(status).reserved(),
{
    status.capture(characters);
    if let Some(written) = chars_written {
        *written = length;
    }
    TRUE
}

/// Takes the place of writing attributes to screen coordinates. Nothing is written to the screen, and
/// all `length` attributes are reported as written.
#[allow(non_snake_case)]
pub fn hooked_WriteConsoleOutputAttribute(length: u32, attrs_written: Option<&mut u32>) -> (r: i32)
    ensures
        r == TRUE,
        r == 1,
        attrs_written matches Some(written) ==> *final(written) == length,
{
    if let Some(written) = attrs_written {
        *written = length;
    }
    TRUE
}

/// Takes the place of moving the cursor: the cursor stays where it is.
#[allow(non_snake_case)]
pub fn hooked_SetConsoleCursorPosition(_cursor_position: Coord) -> (r: i32)
    ensures
        r == TRUE,
        r == 1,
{
    TRUE
}

/// Takes the place of resizing the screen buffer: the buffer keeps its size.
#[allow(non_snake_case)]
pub fn hooked_SetConsoleScreenBufferSize(_size: Coord) -> (r: i32)
    ensures
        r == TRUE,
        r == 1,
{
    TRUE
}

/// Takes the place of moving or resizing the console window: the window stays as it is.
#[allow(non_snake_case)]
pub fn hooked_SetConsoleWindowInfo(_absolute: bool, _has_window: bool) -> (r: i32)
    ensures
        r == TRUE,
        r == 1,
{
    TRUE
}

/// Takes the place of creating a console: the launcher's own terminal is used.
#[allow(non_snake_case)]
pub fn hooked_AllocConsole() -> (r: i32)
    ensures
        r == TRUE,
        r == 1,
{
    TRUE
}

/// Takes the place of giving up the console: the launcher's own terminal is kept.
#[allow(non_snake_case)]
pub fn hooked_FreeConsole() -> (r: i32)
    ensures
        r == TRUE,
        r == 1,
{
    TRUE
}

/// What becomes of a question about the screen buffer.
#[derive(Clone, Copy, PartialEq, Eq, Structural, Debug)]
pub enum BufferInfoReply {
    /// The function at this address answers it.
    Forward(u64),
    /// It succeeds with this state.
    Filled(ScreenBufferInfo),
    /// It fails.
    Failed,
}

/// What becomes of a question about the screen buffer, where `original` is the address of the
/// redirected function, or zero if it is not known, and `has_info` tells whether the caller left
/// room for the answer.
pub open spec fn buffer_info_reply(original: u64, has_info: bool) -> BufferInfoReply {
    if original != 0 {
        BufferInfoReply::Forward(original)
    } else if has_info {
        BufferInfoReply::Filled(default_info())
    } else {
        BufferInfoReply::Failed
    }
}

/// Takes the place of asking for the state of the screen buffer: the question is passed on to the
/// function that was redirected. If its address is not known, a common screen buffer is reported.
#[allow(non_snake_case)]
pub fn hooked_GetConsoleScreenBufferInfo(original: u64, has_info: bool) -> (r: BufferInfoReply)
    ensures
        r == buffer_info_reply(original, has_info),
{
    if original != 0 {
        BufferInfoReply::Forward(original)
    } else if has_info {
        BufferInfoReply::Filled(fallback_info())
    } else {
        BufferInfoReply::Failed
    }
}

/// Gives the screen buffer that is reported when the console cannot be asked.
pub fn fallback_info() -> (r: ScreenBufferInfo)
    ensures
        r == default_info(),
{
    ScreenBufferInfo {
        size: Coord { x: 80, y: 25 },
        cursor_position: Coord { x: 0, y: 0 },
        attributes: 7,
        window: SmallRect { left: 0, top: 0, right: 79, bottom: 24 },
        maximum_window_size: Coord { x: 80, y: 25 },
    }
}

/// The number of cells from `first` to `last`, both of which belong to the range.
pub open spec fn span(first: i16, last: i16) -> int {
    if first <= last {
        last - first + 1
    } else {
        0
    }
}

impl ScreenBufferInfo {
    /// Gives the number of rows and columns of the window.
    pub fn window_size(&self) -> (r: (u32, u32))
        ensures
            r.0 == span(self.window.top, self.window.bottom),
            r.1 == span(self.window.left, self.window.right),
            self.window.top <= self.window.bottom ==> r.0 == self.window.bottom - self.window.top
                + 1,
            self.window.top > self.window.bottom ==> r.0 == 0,
            self.window.left <= self.window.right ==> r.1 == self.window.right - self.window.left
                + 1,
            self.window.left > self.window.right ==> r.1 == 0,
    {
        (cells(self.window.top, self.window.bottom), cells(self.window.left, self.window.right))
    }
}

/// Gives the number of cells from `first` to `last`.
fn cells(first: i16, last: i16) -> (r: u32)
    ensures
        r == span(first, last),
{
    if first <= last {
        (last as i32 - first as i32 + 1) as u32
    } else {
        0
    }
}

/// A question about the screen buffer is passed on exactly if the address of the redirected function
/// is known, and then to that address. Otherwise it succeeds exactly if there is room for the answer.
pub proof fn law_questions_are_passed_on(original: u64, has_info: bool)
    ensures
        forall|address: u64|
            buffer_info_reply(original, has_info) == BufferInfoReply::Forward(address)
                <==> original == address && address != 0,
        buffer_info_reply(original, has_info) is Filled <==> original == 0 && has_info,
        buffer_info_reply(original, has_info) is Failed <==> original == 0 && !has_info,
{
}

/// The screen buffer that is reported when the console cannot be asked is all window, and the cursor
/// stands at its beginning.
pub proof fn law_default_buffer_is_all_window()
    ensures
        ({
            let info = default_info();
            &&& info.size == Coord { x: 80, y: 25 }
            &&& info.maximum_window_size == info.size
            &&& info.cursor_position == Coord { x: 0, y: 0 }
            &&& info.attributes == 7
            &&& info.window.left == 0 && info.window.top == 0
            &&& span(info.window.left, info.window.right) == info.size.x
            &&& span(info.window.top, info.window.bottom) == info.size.y
        }),
{
}

/// A range that begins at some cell is longer by one for each cell that it goes on.
pub proof fn law_span_counts_both_ends(first: i16, last: i16)
    ensures
        last < first ==> span(first, last) == 0,
        last == first ==> span(first, last) == 1,
        first < last ==> span(first, last) == span(first, (last - 1) as i16) + 1,
        first <= last ==> first + span(first, last) - 1 == last,
{
}

/// A console function that succeeds answers with one, and one that fails with zero.
pub proof fn law_answers_of_console_functions()
    ensures
        TRUE == 1,
        FALSE == 0,
{
}

} // verus!
