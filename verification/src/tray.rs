//! The notification-area icon: its tooltip text, where its picture comes
//! from, the pixel and mask bytes it is built from, and how its window
//! messages are answered.

use vstd::prelude::*;
use crate::text::chars_of;
use crate::raster::{canvas_pixels, still_decoded, decode_still, canvas_into_raw, rgba_bytes};

verus! {

broadcast use vstd::string::group_string_axioms;

/// The UTF-16 code units of `c`: one below U+10000, else a surrogate pair.
pub open spec fn utf16_units(c: char) -> Seq<u16> {
    let u = c as u32 as int;
    if u < 0x10000 {
        seq![u as u16]
    } else {
        let v = u - 0x10000;
        seq![(0xd800 + v / 0x400) as u16, (0xdc00 + v % 0x400) as u16]
    }
}

/// The UTF-16 code units of `s`.
pub open spec fn utf16_of(s: Seq<char>) -> Seq<u16>
    decreases s.len(),
{
    if s.len() == 0 {
        seq![]
    } else {
        utf16_of(s.drop_last()) + utf16_units(s.last())
    }
}

/// `text` in UTF-16 followed by a terminating zero, as Windows takes it.
pub fn to_wide_null(text: &str) -> (w: Vec<u16>)
    ensures
        w@ == utf16_of(text@).push(0u16),
{
    let chars = chars_of(text);
    let mut w: Vec<u16> = Vec::new();
    let mut i: usize = 0;
    assert(text@.take(0) =~= Seq::<char>::empty());
    while i < chars.len()
        invariant
            0 <= i <= chars.len(),
            chars@ == text@,
            w@ == utf16_of(text@.take(i as int)),
        decreases chars.len() - i,
    {
        let c = chars[i];
        let u = c as u32;
        let ghost before = w@;
        if u < 0x10000 {
            w.push(u as u16);
        } else {
            let v = u - 0x10000;
            w.push((0xd800 + v / 0x400) as u16);
            w.push((0xdc00 + v % 0x400) as u16);
        }
        assert(text@.take(i + 1).drop_last() =~= text@.take(i as int));
        assert(w@ =~= before + utf16_units(c));
        i += 1;
    }
    assert(text@.take(i as int) =~= text@);
    w.push(0);
    w
}

/// The picture files tried for the icon, in order of preference.
pub open spec fn tray_icon_candidate(i: int) -> Seq<char> {
    if i == 0 {
        "assets/tray.ico"@
    } else if i == 1 {
        "assets/icon.ico"@
    } else if i == 2 {
        "assets/wooper.png"@
    } else {
        "assets/wooper.gif"@
    }
}

/// The picture files tried for the icon, in order of preference.
pub fn tray_icon_candidates() -> (c: Vec<&'static str>)
    ensures
        c@.len() == 4,
        forall|i: int| 0 <= i < 4 ==> #[trigger] c@[i]@ == tray_icon_candidate(i),
{
    let mut c: Vec<&'static str> = Vec::new();
    c.push("assets/tray.ico");
    c.push("assets/icon.ico");
    c.push("assets/wooper.png");
    c.push("assets/wooper.gif");
    c
}

/// The icon picture to use: the first candidate (see
/// `tray_icon_candidates`) that `present` marks as existing, or none.
pub fn tray_icon_asset_path(present: &Vec<bool>) -> (r: Option<String>)
    ensures
        r is None <==> forall|i: int| 0 <= i < 4 && i < present@.len() ==> !present@[i],
        r matches Some(p) ==> exists|i: int|
            0 <= i < 4 && i < present@.len() && present@[i] && p@ == tray_icon_candidate(i)
                && forall|j: int| 0 <= j < i ==> !present@[j],
{
    let candidates = tray_icon_candidates();
    let mut i: usize = 0;
    while i < 4 && i < present.len()
        invariant
            0 <= i <= 4,
            candidates@.len() == 4,
            forall|k: int| 0 <= k < 4 ==> #[trigger] candidates@[k]@ == tray_icon_candidate(k),
            forall|j: int| 0 <= j < i && j < present@.len() ==> !present@[j],
        decreases 4 - i,
    {
        if present[i] {
            let p = String::from_str(candidates[i]);
            assert(p@ == tray_icon_candidate(i as int));
            return Some(p);
        }
        i += 1;
    }
    None
}

/// `WM_APP` of Windows, the first message number free for applications.
pub const WM_APP: u32 = 0x8000;
/// The message the icon sends to its window.
pub const WM_TRAYICON: u32 = WM_APP + 1;
/// `WM_COMMAND` of Windows: a menu item was chosen.
pub const WM_COMMAND: u32 = 0x0111;
/// `WM_RBUTTONUP` of Windows: the right mouse button went up.
pub const WM_RBUTTONUP: u32 = 0x0205;
/// `WM_CONTEXTMENU` of Windows: a context menu was asked for.
pub const WM_CONTEXTMENU: u32 = 0x007b;
/// The identifier of the icon menu's "Close" item.
pub const IDM_TRAY_CLOSE: usize = 1001;

/// What the icon's window procedure does with a message.
#[derive(Clone, Copy, Debug, PartialEq, Eq)]
pub enum TrayAction {
    /// Show the icon's menu.
    ShowMenu,
    /// Close the window.
    Close,
    /// Hand the message on to the window's previous procedure.
    Forward,
}

/// How a window message is answered: a right click or context-menu request
/// on the icon shows its menu, choosing "Close" closes the window, anything
/// else goes on to the previous window procedure.
pub fn tray_message_action(msg: u32, wparam: usize, lparam: isize) -> (a: TrayAction)
    ensures
        a == (if msg == WM_TRAYICON && (lparam as u32 == WM_RBUTTONUP || lparam as u32 == WM_CONTEXTMENU) {
            TrayAction::ShowMenu
        } else if msg == WM_COMMAND && (wparam & 0xffff) == IDM_TRAY_CLOSE {
            TrayAction::Close
        } else {
            TrayAction::Forward
        }),
{
    let event = lparam as u32;
    if msg == WM_TRAYICON && (event == WM_RBUTTONUP || event == WM_CONTEXTMENU) {
        return TrayAction::ShowMenu;
    }
    if msg == WM_COMMAND && (wparam & 0xffff) == IDM_TRAY_CLOSE {
        return TrayAction::Close;
    }
    TrayAction::Forward
}

/// `s` with the first and third byte of every complete group of four
/// traded; a trailing incomplete group stays as it is.
pub open spec fn bgra_swapped(s: Seq<u8>) -> Seq<u8> {
    let whole = s.len() - s.len() % 4;
    Seq::new(
        s.len(),
        |i: int|
            if i < whole && i % 4 == 0 {
                s[i + 2]
            } else if i < whole && i % 4 == 2 {
                s[i - 2]
            } else {
                s[i]
            },
    )
}

/// Swapping twice gives the bytes back: the same call turns BGRA into
/// RGBA again.
pub proof fn lemma_bgra_swap_twice(s: Seq<u8>)
    ensures
        bgra_swapped(bgra_swapped(s)) == s,
{
    let t = bgra_swapped(s);
    assert forall|i: int| 0 <= i < s.len() implies #[trigger] bgra_swapped(t)[i] == s[i] by {
        let whole = s.len() - s.len() % 4;
        if i < whole && i % 4 == 0 {
            assert(t[i + 2] == s[i]);
        } else if i < whole && i % 4 == 2 {
            assert(t[i - 2] == s[i]);
        }
    }
    assert(bgra_swapped(t) =~= s);
}

/// Reorders RGBA bytes into the BGRA order of a Windows bitmap: in every
/// complete group of four the first and third byte trade places; a
/// trailing incomplete group stays as it is.
pub fn rgba_to_bgra(bytes: &mut Vec<u8>)
    ensures
        final(bytes)@ == bgra_swapped(old(bytes)@),
{
    let n = bytes.len();
    let whole = n - n % 4;
    let ghost orig = bytes@;
    let mut k: usize = 0;
    while k < whole
        invariant
            n == orig.len(),
            whole == n - n % 4,
            k % 4 == 0,
            0 <= k <= whole,
            bytes@.len() == n,
            forall|i: int| #![trigger bytes@[i]] 0 <= i < n ==> bytes@[i] == (
                if i < k && i % 4 == 0 {
                    orig[i + 2]
                } else if i < k && i % 4 == 2 {
                    orig[i - 2]
                } else {
                    orig[i]
                }),
        decreases whole - k,
    {
        let first = bytes[k];
        let third = bytes[k + 2];
        bytes.set(k, third);
        bytes.set(k + 2, first);
        k = k + 4;
    }
    assert(bytes@ =~= bgra_swapped(orig));
}

/// The number of bytes in one row of a one-bit-per-pixel mask `width`
/// pixels wide.
pub open spec fn mask_stride(width: int) -> int {
    (width + 7) / 8
}

/// An all-zero one-bit-per-pixel mask for a `width` by `height` icon.
pub fn icon_mask(width: u32, height: u32) -> (m: Vec<u8>)
    requires
        mask_stride(width as int) * height <= u32::MAX,
    ensures
        m@.len() == mask_stride(width as int) * height,
        forall|i: int| 0 <= i < m@.len() ==> #[trigger] m@[i] == 0,
{
    let stride = width / 8 + if width % 8 == 0 { 0 } else { 1 };
    assert(stride == mask_stride(width as int));
    let len = (stride * height) as usize;
    let mut m: Vec<u8> = Vec::new();
    while m.len() < len
        invariant
            m@.len() <= len,
            forall|i: int| 0 <= i < m@.len() ==> #[trigger] m@[i] == 0,
        decreases len - m@.len(),
    {
        m.push(0);
    }
    m
}

/// Swapping a whole number of pixels at the front is the front of the
/// swapped bytes.
proof fn lemma_bgra_swap_prefix(s: Seq<u8>, n: int)
    requires
        0 <= n <= s.len(),
        n % 4 == 0,
    ensures
        bgra_swapped(s).subrange(0, n) == bgra_swapped(s.subrange(0, n)),
{
    let a = bgra_swapped(s).subrange(0, n);
    let b = bgra_swapped(s.subrange(0, n));
    assert forall|i: int| 0 <= i < n implies #[trigger] a[i] == b[i] by {
        if i % 4 == 0 {
            assert(i + 2 < n);
        }
    }
    assert(a =~= b);
}

/// The bitmaps of the tray icon decoded from a file's `bytes` by its
/// extension `ext`: width, height, the colour bytes (the pixels row by row
/// in blue-green-red-alpha order, followed by whatever else the decoded
/// buffer holds) and an all-zero one-bit mask.  `None` where decoding fails,
/// the picture has no pixels, or the mask's size does not fit `u32`.
pub fn tray_icon_bitmaps(bytes: &[u8], ext: &str) -> (r: Option<(u32, u32, Vec<u8>, Vec<u8>)>)
    ensures
        r is None <==> !(still_decoded(bytes@, ext@) matches Some(d) && d.0 > 0 && d.1 > 0 && mask_stride(d.0 as int) * d.1
            <= u32::MAX),
        r matches Some(out) ==> {
            let d = still_decoded(bytes@, ext@).unwrap();
            let n = d.0 * d.1 * 4;
            &&& out.0 == d.0
            &&& out.1 == d.1
            &&& out.2@.len() >= n
            &&& out.2@.subrange(0, n) == bgra_swapped(rgba_bytes(d.2, (d.0, d.1)))
            &&& out.3@.len() == mask_stride(d.0 as int) * d.1
            &&& forall|i: int| 0 <= i < out.3@.len() ==> #[trigger] out.3@[i] == 0
        },
{
    let canvas = match decode_still(bytes, ext) {
        Some(c) => c,
        None => {
            return None;
        },
    };
    let w = canvas.width();
    let h = canvas.height();
    if w == 0 || h == 0 {
        return None;
    }
    let stride = w / 8 + if w % 8 == 0 { 0 } else { 1 };
    assert(stride == mask_stride(w as int));
    let (a, b) = (stride as u64, h as u64);
    assert(a * b <= 0xffff_ffff * 0xffff_ffff) by (nonlinear_arith)
        requires a <= 0xffff_ffff, b <= 0xffff_ffff;
    if a * b > u32::MAX as u64 {
        return None;
    }
    let ghost pixels = canvas_pixels(canvas);
    let ghost n = w * h * 4;
    let mut raw = canvas_into_raw(canvas);
    let ghost before = raw@;
    rgba_to_bgra(&mut raw);
    proof {
        assert(n % 4 == 0) by (nonlinear_arith)
            requires n == w * h * 4;
        lemma_bgra_swap_prefix(before, n);
    }
    let mask = icon_mask(w, h);
    Some((w, h, raw, mask))
}

} // verus!
