//! The status bar's dealings with the desktop, as values: how a window
//! message is answered, what the tray icon shows and does, where the bar is
//! placed, and what is kept of a monitor.
//!
//! Message numbers are those of the Win32 API.

use vstd::prelude::*;
use vstd::utf8::decode_utf8;

verus! {

pub const WM_CREATE: u32 = 0x0001;
pub const WM_DESTROY: u32 = 0x0002;
pub const WM_SIZE: u32 = 0x0005;
pub const WM_PAINT: u32 = 0x000F;
pub const WM_LBUTTONDOWN: u32 = 0x0201;
pub const WM_LBUTTONUP: u32 = 0x0202;
pub const WM_RBUTTONUP: u32 = 0x0205;
pub const WM_APP: u32 = 0x8000;

/// Message posted to the bar's window when the tray icon is used; in the
/// `WM_APP` range so it never collides with a system message.
pub const WM_TRAY_CALLBACK: u32 = 0x8001;

/// Message the shell sends about the bar's place on the screen.
pub const MINIBAR_MAGIC_NUMBER: u32 = 42;

/// Height of the bar on the screen, in pixels.
pub const APPBAR_HEIGHT: i32 = 30;

/// The low word of a message parameter (the x coordinate of a point, or a
/// width).
pub open spec fn low_word(lparam: isize) -> int {
    lparam as int % 0x10000
}

/// The high word of a message parameter (the y coordinate of a point, or a
/// height): the 16 bits above the low word.
pub open spec fn high_word(lparam: isize) -> int {
    (lparam as int % 0x1_0000_0000) / 0x10000
}

/// Splits a message parameter into x (its low word) and y (its high word).
pub fn lparam_as_xy(lparam: isize) -> (xy: (u16, u16))
    ensures
        xy.0 == low_word(lparam),
        xy.1 == high_word(lparam),
{
    let u = lparam as usize;
    let x = (u & 0xffff) as u16;
    let y = ((u >> 16usize) & 0xffff) as u16;
    proof {
        assert(((lparam as usize) & 0xffff) as u16 == ((lparam as int) % 0x10000)) by (bit_vector);
        assert((((lparam as usize) >> 16usize) & 0xffff) as u16 == ((lparam as int) % 0x1_0000_0000)
            / 0x10000) by (bit_vector);
    }
    (x, y)
}

/// What the bar's window does with a message.
pub enum MessageAction {
    /// Start listening for redraw requests.
    Create,
    /// Resize the drawing surface.
    Resize { width: u16, height: u16 },
    /// Draw the bar.
    Paint,
    /// Handle a click at a point.
    Click { x: u16, y: u16 },
    /// Leave the message loop.
    Destroy,
    /// Not handled here: the default handler takes it.
    Unhandled,
}

/// What the bar's window does with the message `umsg` whose parameter is
/// `lparam`.
pub open spec fn spec_message_action(umsg: u32, lparam: isize) -> MessageAction {
    if umsg == WM_CREATE {
        MessageAction::Create
    } else if umsg == WM_SIZE {
        MessageAction::Resize { width: low_word(lparam) as u16, height: high_word(lparam) as u16 }
    } else if umsg == WM_PAINT {
        MessageAction::Paint
    } else if umsg == WM_LBUTTONDOWN {
        MessageAction::Click { x: low_word(lparam) as u16, y: high_word(lparam) as u16 }
    } else if umsg == WM_DESTROY {
        MessageAction::Destroy
    } else {
        MessageAction::Unhandled
    }
}

/// Only a left button going down is a click, only a resize resizes, and
/// every message but creation, resizing, painting, a left button going down
/// and destruction is left to the default handler; the click and the resize
/// carry the low and high words of the parameter.
pub proof fn lemma_message_action(umsg: u32, lparam: isize)
    ensures
        spec_message_action(umsg, lparam) is Click <==> umsg == 0x0201,
        spec_message_action(umsg, lparam) is Resize <==> umsg == 0x0005,
        spec_message_action(umsg, lparam) is Create <==> umsg == 0x0001,
        spec_message_action(umsg, lparam) is Paint <==> umsg == 0x000F,
        spec_message_action(umsg, lparam) is Destroy <==> umsg == 0x0002,
        !(umsg == 0x0001 || umsg == 0x0005 || umsg == 0x000F || umsg == 0x0201 || umsg == 0x0002)
            ==> spec_message_action(umsg, lparam) is Unhandled,
        spec_message_action(umsg, lparam) matches MessageAction::Click { x, y } ==> x == lparam as int
            % 0x10000 && y == (lparam as int % 0x1_0000_0000) / 0x10000,
        spec_message_action(umsg, lparam) matches MessageAction::Resize { width, height } ==> width
            == lparam as int % 0x10000 && height == (lparam as int % 0x1_0000_0000) / 0x10000,
{
}

/// Dispatches a window message (see `spec_message_action`).
pub fn message_action(umsg: u32, lparam: isize) -> (a: MessageAction)
    ensures
        a == spec_message_action(umsg, lparam),
{
    if umsg == WM_CREATE {
        MessageAction::Create
    } else if umsg == WM_SIZE {
        let (width, height) = lparam_as_xy(lparam);
        MessageAction::Resize { width, height }
    } else if umsg == WM_PAINT {
        MessageAction::Paint
    } else if umsg == WM_LBUTTONDOWN {
        let (x, y) = lparam_as_xy(lparam);
        MessageAction::Click { x, y }
    } else if umsg == WM_DESTROY {
        MessageAction::Destroy
    } else {
        MessageAction::Unhandled
    }
}

/// Whether a use of the tray icon opens its menu: a left or right button
/// released over it, the mouse message being the low word of `lparam`.
pub fn tray_menu_requested(lparam: isize) -> (r: bool)
    ensures
        r == (low_word(lparam) == WM_RBUTTONUP || low_word(lparam) == WM_LBUTTONUP),
{
    let event = (lparam & 0xffff) as u32;
    proof {
        assert((lparam & 0xffff) as u32 == (lparam as int) % 0x10000) by (bit_vector);
    }
    event == WM_RBUTTONUP || event == WM_LBUTTONUP
}

/// UTF-16 code units of a character.
pub open spec fn utf16_units(c: char) -> Seq<u16> {
    let v = c as u32;
    if v < 0x10000 {
        seq![v as u16]
    } else {
        let u = (v - 0x10000) as u32;
        seq![(0xD800 + u / 0x400) as u16, (0xDC00 + u % 0x400) as u16]
    }
}

/// UTF-16 encoding of `cs`.
pub open spec fn utf16(cs: Seq<char>) -> Seq<u16>
    decreases cs.len(),
{
    if cs.len() == 0 {
        Seq::empty()
    } else {
        utf16(cs.drop_last()) + utf16_units(cs.last())
    }
}

/// `cs` up to its first nul character.
pub open spec fn before_nul(cs: Seq<char>) -> Seq<char>
    decreases cs.len(),
{
    if cs.len() == 0 {
        cs
    } else if cs[0] == '\0' {
        Seq::empty()
    } else {
        seq![cs[0]] + before_nul(cs.drop_first())
    }
}

/// `widestring::U16CString::from_str_truncate`, as the code units of
/// `as_slice_with_nul`: `s` encoded as UTF-16 up to its first nul, then a
/// nul.
#[verifier::external_body]
fn utf16_with_nul(s: &str) -> (units: Vec<u16>)
    ensures
        units@ == utf16(before_nul(s@)).push(0u16),
{
    widestring::U16CString::from_str_truncate(s).as_slice_with_nul().to_vec()
}

/// Length of the tray icon's tooltip buffer, in UTF-16 code units.
pub const TIP_LEN: usize = 128;

/// The tray icon's tooltip buffer for `tooltip`: its UTF-16 units (up to
/// its first nul), as many as leave room for a terminating nul, then zeros.
pub open spec fn tip_buffer(tooltip: Seq<char>) -> Seq<u16> {
    let units = utf16(before_nul(tooltip));
    Seq::new(
        TIP_LEN as nat,
        |i: int| if i < units.len() && i < TIP_LEN - 1 { units[i] } else { 0u16 },
    )
}

/// The tooltip buffer always ends in a nul, and before its first nul it
/// holds the tooltip's UTF-16 units, as many as fit before the last slot.
pub proof fn lemma_tip_buffer(tooltip: Seq<char>)
    ensures
        tip_buffer(tooltip).len() == TIP_LEN,
        tip_buffer(tooltip)[TIP_LEN - 1] == 0u16,
        forall|i: int|
            0 <= i < TIP_LEN - 1 && i < utf16(before_nul(tooltip)).len() ==> #[trigger] tip_buffer(tooltip)[i]
                == utf16(before_nul(tooltip))[i],
        forall|i: int|
            utf16(before_nul(tooltip)).len() <= i < TIP_LEN ==> #[trigger] tip_buffer(tooltip)[i] == 0u16,
{
}

/// Fills the tray icon's tooltip buffer (see `tip_buffer`).
pub fn tray_tip(tooltip: &str) -> (buf: Vec<u16>)
    ensures
        buf@ == tip_buffer(tooltip@),
{
    let tip = utf16_with_nul(tooltip);
    let ghost units = utf16(before_nul(tooltip@));
    // the units before the terminator, as many as leave room for a nul
    let len = if tip.len() - 1 < TIP_LEN - 1 {
        tip.len() - 1
    } else {
        TIP_LEN - 1
    };
    let mut buf: Vec<u16> = Vec::new();
    let mut i: usize = 0;
    while i < TIP_LEN
        invariant
            i <= TIP_LEN,
            tip@ == units.push(0u16),
            len <= units.len(),
            len < TIP_LEN,
            len == units.len() || len == TIP_LEN - 1,
            buf@.len() == i,
            forall|j: int|
                0 <= j < i ==> #[trigger] buf@[j] == if j < units.len() && j < TIP_LEN - 1 {
                    units[j]
                } else {
                    0u16
                },
        decreases TIP_LEN - i,
    {
        if i < len {
            buf.push(tip[i]);
        } else {
            buf.push(0u16);
        }
        i = i + 1;
    }
    proof {
        assert(buf@ =~= tip_buffer(tooltip@));
    }
    buf
}

/// A rectangle of the screen, in pixels.
#[derive(Clone, Copy, Debug, PartialEq, Eq, Structural)]
pub struct Rect {
    pub left: i32,
    pub top: i32,
    pub right: i32,
    pub bottom: i32,
}

impl Rect {
    /// Left, top, width and height, as a window is moved to them.
    pub fn placement(&self) -> (p: (i32, i32, i32, i32))
        requires
            i32::MIN <= self.right - self.left <= i32::MAX,
            i32::MIN <= self.bottom - self.top <= i32::MAX,
        ensures
            p == (self.left, self.top, (self.right - self.left) as i32, (self.bottom - self.top) as i32),
    {
        (self.left, self.top, self.right - self.left, self.bottom - self.top)
    }

    /// Width and height in device pixels, as a drawing surface takes them
    /// (a negative extent wraps around, as a cast to `u32` does).
    pub fn pixel_size(&self) -> (s: (u32, u32))
        requires
            i32::MIN <= self.right - self.left <= i32::MAX,
            i32::MIN <= self.bottom - self.top <= i32::MAX,
        ensures
            s.0 == ((self.right - self.left) as i32) as u32,
            s.1 == ((self.bottom - self.top) as i32) as u32,
    {
        let w = self.right - self.left;
        let h = self.bottom - self.top;
        (w as u32, h as u32)
    }
}

/// The place the bar asks of the shell: the top edge of the screen, the
/// full `screen_width` wide and `bar_height` high.
pub fn appbar_request(screen_width: i32, bar_height: i32) -> (r: Rect)
    ensures
        r == (Rect { left: 0, top: 0, right: screen_width, bottom: bar_height }),
{
    Rect { left: 0, top: 0, right: screen_width, bottom: bar_height }
}

/// The font family of the bar: JetBrains Mono where it is installed,
/// Consolas otherwise.
pub fn font_family(jetbrains_mono_installed: bool) -> (f: &'static str)
    ensures
        f@ == if jetbrains_mono_installed {
            "JetBrains Mono"@
        } else {
            "Consolas"@
        },
{
    if jetbrains_mono_installed {
        "JetBrains Mono"
    } else {
        "Consolas"
    }
}

/// DPI of 100% scaling.
pub const DEFAULT_DPI: u32 = 96;

/// A monitor: where it is, its display device, and its effective DPI.
pub struct MonitorInfo {
    pub rect: Rect,
    pub dev_name: String,
    pub dpi: u32,
}

/// Text of `bytes` read as UTF-8, each invalid sequence replaced by
/// U+FFFD, as `String::from_utf8_lossy` reads it.
pub uninterp spec fn utf8_lossy(bytes: Seq<u8>) -> Seq<char>;

/// `String::from_utf8_lossy`, made an owned `String`. Valid UTF-8 reads as
/// the characters it encodes; how invalid sequences are replaced is left
/// to the name `utf8_lossy`.
#[verifier::external_body]
fn from_utf8_lossy(bytes: &[u8]) -> (s: String)
    ensures
        s@ == utf8_lossy(bytes@),
        vstd::utf8::valid_utf8(bytes@) ==> s@ == decode_utf8(bytes@),
{
    String::from_utf8_lossy(bytes).into_owned()
}

/// `bytes` without the zeros at its end.
pub open spec fn trim_nuls(bytes: Seq<u8>) -> Seq<u8>
    decreases bytes.len(),
{
    if bytes.len() > 0 && bytes.last() == 0 {
        trim_nuls(bytes.drop_last())
    } else {
        bytes
    }
}

/// The name of a display device from its fixed-size, nul-padded buffer:
/// the bytes before the padding, read as lossy UTF-8. (Reading the whole
/// buffer and then trimming the nul characters gives the same text: a
/// zero byte reads as a nul character and ends any unfinished sequence.)
pub fn device_name(device: &[u8]) -> (s: String)
    ensures
        s@ == utf8_lossy(trim_nuls(device@)),
{
    let mut end: usize = device.len();
    proof {
        assert(device@.take(end as int) =~= device@);
    }
    while end > 0 && device[end - 1] == 0
        invariant
            end <= device@.len(),
            trim_nuls(device@.take(end as int)) == trim_nuls(device@),
        decreases end,
    {
        proof {
            assert(device@.take(end as int).drop_last() =~= device@.take(end - 1));
        }
        end = end - 1;
    }
    let mut kept: Vec<u8> = Vec::new();
    let mut i: usize = 0;
    while i < end
        invariant
            i <= end <= device@.len(),
            kept@ == device@.take(i as int),
        decreases end - i,
    {
        kept.push(device[i]);
        proof {
            assert(kept@ =~= device@.take(i + 1));
        }
        i = i + 1;
    }
    proof {
        let t = device@.take(end as int);
        assert(kept@ == t);
        assert(trim_nuls(t) == t);
    }
    from_utf8_lossy(kept.as_slice())
}

/// What is kept of a monitor: its name, the DPI that the query gave, or 100%
/// when the query failed, and its rectangle; no monitor without one.
pub fn monitor_info(rect: Option<Rect>, device: &[u8], dpi_query: Option<u32>) -> (m: Option<MonitorInfo>)
    ensures
        match rect {
            Some(r) => m matches Some(info) && info.rect == r && info.dev_name@ == utf8_lossy(
                trim_nuls(device@),
            ) && info.dpi == match dpi_query {
                Some(d) => d,
                None => DEFAULT_DPI,
            },
            None => m is None,
        },
{
    let dev_name = device_name(device);
    let dpi = match dpi_query {
        Some(d) => d,
        None => DEFAULT_DPI,
    };
    match rect {
        Some(r) => Some(MonitorInfo { rect: r, dev_name, dpi }),
        None => None,
    }
}

} // verus!
