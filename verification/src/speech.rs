//! The speech bubble: a queue of messages revealed character by character,
//! advanced on request, and composed with the character image.

use std::collections::VecDeque;
use std::time::Duration;
use vstd::prelude::*;
use crate::text::{is_blank, is_blank_str, wrap_text, wrapped_lines, take_chars, chars_of, min, push_text_char};
use crate::raster::{Px, Canvas, canvas_dims, canvas_pixels, canvas_wf, paint, in_bounds, blank, overlaid, kept_or_set, lemma_paint_opaque, kept_or_alpha, lemma_opaque_source_replaces};
use crate::shapes::{draw_char, glyph_area, glyph_for, draw_inverted_triangle_indicator, indicator_corners, triangle_area, on_pixels};
use crate::layout::{
    BubbleLayout, compute_layout, layout_spec, layout_fits_u32, drawable, draw_bubble, bubble_drawn, scaled_exec, clamp_exec, font_scale_spec, font_scale_for_image, padding_spec, sat_sub, clamp, max, scaled, indicator_anchor,
    indicator_anchor_spec, on_bubble, layout_hit, cursor_in_range, lemma_layout_geometry, layout_fits, lemma_bubble_rows_kept, lemma_bubble_drawn_alpha,
    bubble_width_spec, bubble_height_spec, max_cols_spec, sat_u32,
};

verus! {

/// One billion: progress is counted in billionths of a character.
pub const NANOS_PER_SECOND: u128 = 1_000_000_000;

/// Characters revealed per second at normal speed.
pub const NORMAL_CHARS_PER_SECOND: u128 = 24;

/// Characters revealed per second while sped up.
pub const FAST_CHARS_PER_SECOND: u128 = 96;

/// The abstract state of a bubble.
pub struct BubbleState {
    /// The message on show, if any.
    pub current: Option<Seq<char>>,
    /// Messages waiting their turn, oldest first.
    pub queue: Seq<Seq<char>>,
    /// How many characters of the current message are revealed.
    pub visible: nat,
    /// Reveal progress in billionths of a character.
    pub progress: nat,
    /// Whether revealing runs at the fast rate.
    pub speed_up: bool,
    /// Time the message has been on show, in nanoseconds.
    pub phase: nat,
}

/// A fresh bubble state showing `m`.
pub open spec fn started(st: BubbleState, m: Seq<char>) -> BubbleState {
    BubbleState { current: Some(m), queue: st.queue, visible: 0, progress: 0, speed_up: false, phase: 0 }
}

/// The empty state: nothing on show, nothing queued.
pub open spec fn cleared() -> BubbleState {
    BubbleState { current: None, queue: seq![], visible: 0, progress: 0, speed_up: false, phase: 0 }
}

/// Queuing `m`: blank messages are dropped, the first message goes on show
/// at once, later ones wait in line.
pub open spec fn pushed(st: BubbleState, m: Seq<char>) -> BubbleState {
    if is_blank(m) {
        st
    } else if st.current is None {
        started(st, m)
    } else {
        BubbleState { queue: st.queue.push(m), ..st }
    }
}

/// The number of characters of the message on show.
pub open spec fn total_chars_of(st: BubbleState) -> nat {
    match st.current {
        Some(m) => m.len(),
        None => 0,
    }
}

/// A message is on show and all of it is revealed.
pub open spec fn finished(st: BubbleState) -> bool {
    st.current is Some && st.visible >= total_chars_of(st)
}

/// The message on show, or nothing.
pub open spec fn current_chars(st: BubbleState) -> Seq<char> {
    match st.current {
        Some(m) => m,
        None => seq![],
    }
}

/// Advancing: only a fully revealed message moves on, to the oldest queued
/// one, or to an empty bubble when none is queued.
pub open spec fn advanced(st: BubbleState) -> (BubbleState, bool) {
    if !finished(st) {
        (st, false)
    } else if st.queue.len() > 0 {
        (
            BubbleState {
                current: Some(st.queue[0]),
                queue: st.queue.drop_first(),
                visible: 0,
                progress: 0,
                speed_up: false,
                phase: 0,
            },
            true,
        )
    } else {
        (cleared(), true)
    }
}

/// Boosting: with a message on show the fast rate is switched on and,
/// unless all is revealed, one more character appears at once.
pub open spec fn boosted(st: BubbleState) -> BubbleState {
    if st.current is None {
        st
    } else if finished(st) {
        BubbleState { speed_up: true, ..st }
    } else {
        let v = if st.visible + 1 <= total_chars_of(st) { st.visible + 1 } else { total_chars_of(st) };
        BubbleState { speed_up: true, visible: v, progress: v * (NANOS_PER_SECOND as nat), ..st }
    }
}

/// `v`, capped at `u128::MAX`.
pub open spec fn sat_u128(v: int) -> nat {
    if v > u128::MAX {
        u128::MAX as nat
    } else if v < 0 {
        0
    } else {
        v as nat
    }
}

/// Letting `nanos` nanoseconds pass (see `SpeechBubble::advance_time`).
pub open spec fn ticked(st: BubbleState, nanos: nat) -> (BubbleState, bool) {
    if st.current is None {
        (st, false)
    } else {
        let phase = sat_u128((st.phase + nanos) as int);
        if finished(st) {
            (BubbleState { phase: phase, ..st }, false)
        } else {
            let rate: nat = if st.speed_up { FAST_CHARS_PER_SECOND as nat } else { NORMAL_CHARS_PER_SECOND as nat };
            let progress = sat_u128((st.progress + sat_u128((nanos * rate) as int)) as int);
            let whole = progress / (NANOS_PER_SECOND as nat);
            let v = if whole <= total_chars_of(st) { whole } else { total_chars_of(st) };
            (BubbleState { phase: phase, progress: progress, visible: v, ..st }, v != st.visible)
        }
    }
}

/// The messages still to be shown, in the order they will appear: the one
/// on show, then the queue.
pub open spec fn pending(st: BubbleState) -> Seq<Seq<char>> {
    match st.current {
        Some(m) => seq![m] + st.queue,
        None => st.queue,
    }
}

/// Messages appear in the order they were pushed: pushing a message that is
/// not blank adds it after every message still to be shown, a blank one
/// changes nothing, an advance that succeeds takes the first of them off,
/// and one that does not leaves the bubble as it was.
pub proof fn lemma_messages_in_order(st: BubbleState, m: Seq<char>)
    requires
        st.current is None ==> st.queue.len() == 0,
    ensures
        !is_blank(m) ==> pending(pushed(st, m)) == pending(st).push(m),
        is_blank(m) ==> pushed(st, m) == st,
        advanced(st).1 ==> pending(advanced(st).0) == pending(st).drop_first(),
        !advanced(st).1 ==> advanced(st).0 == st,
{
    if st.current is Some {
        assert(seq![current_chars(st)] + st.queue.push(m) =~= (seq![current_chars(st)] + st.queue).push(m));
        if st.queue.len() > 0 {
            assert(seq![st.queue[0]] + st.queue.drop_first() =~= (seq![current_chars(st)] + st.queue).drop_first());
        } else {
            assert(pending(cleared()) =~= (seq![current_chars(st)] + st.queue).drop_first());
        }
    } else {
        assert(seq![m] + st.queue =~= st.queue.push(m));
    }
}

/// Only a fully revealed message can be advanced: an advance that succeeds
/// started from a finished message, and one on an unfinished (or hidden)
/// bubble changes nothing.
pub proof fn lemma_advance_needs_finished(st: BubbleState)
    ensures
        advanced(st).1 ==> finished(st),
        !finished(st) ==> advanced(st) == (st, false),
{
}

/// A boost on a bubble with a message turns the fast rate on, so time then
/// reveals 96 characters per second: after a boost, an unfinished message's
/// progress grows by exactly `nanos * 96` (below the counter's limit).
pub proof fn lemma_boost_speeds_up(st: BubbleState, nanos: nat)
    requires
        st.current is Some,
    ensures
        boosted(st).speed_up,
        boosted(st).current == st.current && boosted(st).queue == st.queue,
        st.visible < total_chars_of(st) ==> boosted(st).visible == st.visible + 1,
        st.visible >= total_chars_of(st) ==> boosted(st).visible == st.visible,
        !finished(boosted(st)) && boosted(st).progress + nanos * 96 <= u128::MAX ==> ticked(boosted(st), nanos).0.progress
            == boosted(st).progress + nanos * 96,
{
    assert(nanos * 96 <= u128::MAX || boosted(st).progress + nanos * 96 > u128::MAX);
}

/// The revealed count follows the progress: its whole characters, capped
/// at the message's length.
pub open spec fn reveal_consistent(st: BubbleState) -> bool {
    st.visible == min((st.progress / (NANOS_PER_SECOND as nat)) as int, total_chars_of(st) as int)
}

/// How much of a message is revealed, and the marker's clock, depend only
/// on the time that has passed, not on how it is split between updates.
pub proof fn lemma_tick_split(st: BubbleState, a: nat, b: nat)
    requires
        reveal_consistent(st),
    ensures
        ticked(ticked(st, a).0, b).0.visible == ticked(st, a + b).0.visible,
        ticked(ticked(st, a).0, b).0.phase == ticked(st, a + b).0.phase,
        ticked(st, a).0.visible <= ticked(st, a + b).0.visible,
{
    if st.current is Some && !finished(st) {
        let rate: nat = if st.speed_up { FAST_CHARS_PER_SECOND as nat } else { NORMAL_CHARS_PER_SECOND as nat };
        let n = NANOS_PER_SECOND as int;
        let total = total_chars_of(st) as int;
        assert(a * rate + b * rate == (a + b) * rate) by (nonlinear_arith);
        assert(0 <= a * rate && 0 <= b * rate) by (nonlinear_arith)
            requires a >= 0, b >= 0, rate >= 0;
        let ga: int = sat_u128((a * rate) as int) as int;
        let gb: int = sat_u128((b * rate) as int) as int;
        let gab: int = sat_u128(((a + b) * rate) as int) as int;
        let p1: int = sat_u128(st.progress + ga) as int;
        let p2: int = sat_u128(p1 + gb) as int;
        let pc: int = sat_u128(st.progress + gab) as int;
        assert(p2 == pc);
        assert(p1 <= pc);
        vstd::arithmetic::div_mod::lemma_div_is_ordered(p1, pc, n);
        let mid = ticked(st, a).0;
        assert(mid.progress == p1);
        if finished(mid) {
            assert(p1 / n >= total);
        }
    }
}

/// Every message is fully revealed once its length divided by 24 seconds
/// have passed (sooner while sped up), however the time is measured out.
pub proof fn lemma_reveal_completes(st: BubbleState, nanos: nat)
    requires
        st.current is Some,
        reveal_consistent(st),
        total_chars_of(st) <= usize::MAX,
        nanos * (NORMAL_CHARS_PER_SECOND as nat) >= total_chars_of(st) * (NANOS_PER_SECOND as nat),
    ensures
        finished(ticked(st, nanos).0),
        ticked(st, nanos).0.visible == total_chars_of(st),
{
    if !finished(st) {
        let rate: nat = if st.speed_up { FAST_CHARS_PER_SECOND as nat } else { NORMAL_CHARS_PER_SECOND as nat };
        let total = total_chars_of(st) as int;
        let n = NANOS_PER_SECOND as int;
        assert(nanos * rate >= nanos * (NORMAL_CHARS_PER_SECOND as nat)) by (nonlinear_arith)
            requires rate >= 24, nanos >= 0;
        assert(total * n <= u128::MAX) by (nonlinear_arith)
            requires 0 <= total <= 0xffff_ffff_ffff_ffff, n == 1_000_000_000;
        let progress = ticked(st, nanos).0.progress;
        assert(progress >= total * n);
        vstd::arithmetic::div_mod::lemma_div_is_ordered(total * n, progress as int, n);
        vstd::arithmetic::div_mod::lemma_div_multiples_vanish(total, n);
    }
}

/// The whole nanoseconds in `d`, as `Duration::as_nanos` of std counts
/// them.
pub uninterp spec fn duration_nanos(d: Duration) -> u128;

/// `Duration::as_nanos` of std: the total of whole nanoseconds in the
/// duration, a function of the duration alone.
#[verifier::external_body]
fn duration_as_nanos(d: Duration) -> (n: u128)
    ensures
        n == duration_nanos(d),
{
    d.as_nanos()
}

/// The colour of the text and of the marker.
pub const TEXT_COLOR: Px = (20, 20, 20, 255);

/// The bytes that UTF-8 spends on `c`.
pub open spec fn utf8_width(c: char) -> int {
    let u = c as u32;
    if u < 0x80 {
        1
    } else if u < 0x800 {
        2
    } else if u < 0x10000 {
        3
    } else {
        4
    }
}

/// The bytes that UTF-8 spends on `s`.
pub open spec fn utf8_len(s: Seq<char>) -> int
    decreases s.len(),
{
    if s.len() == 0 {
        0
    } else {
        utf8_len(s.drop_last()) + utf8_width(s.last())
    }
}

/// `s` without its last three bytes, where those bytes are whole
/// characters; `None` where they would split a character.
pub open spec fn cut_three_bytes(s: Seq<char>) -> Option<Seq<char>> {
    let n = s.len() as int;
    if n >= 1 && utf8_width(s[n - 1]) == 3 {
        Some(s.take(n - 1))
    } else if n >= 2 && utf8_width(s[n - 1]) + utf8_width(s[n - 2]) == 3 {
        Some(s.take(n - 2))
    } else if n >= 3 && utf8_width(s[n - 1]) + utf8_width(s[n - 2]) + utf8_width(s[n - 3]) == 3 {
        Some(s.take(n - 3))
    } else {
        None
    }
}

/// The last visible line when text is cut off: its last three bytes give
/// way to `...`.
pub open spec fn ellipsized(s: Seq<char>) -> Option<Seq<char>> {
    if utf8_len(s) >= 3 {
        match cut_three_bytes(s) {
            Some(t) => Some(t + seq!['.', '.', '.']),
            None => None,
        }
    } else {
        Some(s + seq!['.', '.', '.'])
    }
}

/// The height of the image below a layout's bubble.
pub open spec fn text_image_height(l: BubbleLayout) -> int {
    sat_sub(l.canvas_height as int, l.image_y as int)
}

pub open spec fn text_scale(l: BubbleLayout) -> int {
    font_scale_spec(text_image_height(l))
}

pub open spec fn text_padding(l: BubbleLayout) -> int {
    padding_spec(text_image_height(l))
}

/// Characters per line of the text area.
pub open spec fn text_cols(l: BubbleLayout) -> int {
    let cw = 8 * text_scale(l);
    let width = max(sat_sub(l.bubble_width as int, 2 * text_padding(l)), 8);
    max(width / cw, 1)
}

/// Lines that fit the text area.
pub open spec fn text_rows(l: BubbleLayout) -> int {
    let lh = 9 * text_scale(l);
    let height = max(sat_sub(l.bubble_height as int, 2 * text_padding(l)), lh);
    max(height / lh, 1)
}

/// The lines shown for the revealed text `visible`: the text wrapped to
/// the text area; when it needs more lines than fit, the lines that fit,
/// the last of them ending in `...`.  `None` where cutting the last line
/// would split a character.
pub open spec fn shown_lines(visible: Seq<char>, l: BubbleLayout) -> Option<Seq<Seq<char>>> {
    let lines = wrapped_lines(visible, text_cols(l));
    let rows = text_rows(l);
    if lines.len() > rows {
        let kept = lines.take(rows);
        match ellipsized(kept.last()) {
            Some(e) => Some(kept.update(rows - 1, e)),
            None => None,
        }
    } else {
        Some(lines)
    }
}

/// The canvas after the characters of `line` are drawn left to right from
/// `(x, y)`, one cell of `8 * scale` pixels apart.
pub open spec fn line_drawn(m: Map<(int, int), Px>, dims: (u32, u32), line: Seq<char>, x: int, y: int, scale: int) -> Map<(int, int), Px>
    decreases line.len(),
{
    if line.len() == 0 {
        m
    } else {
        paint(
            line_drawn(m, dims, line.drop_last(), x, y, scale),
            dims,
            glyph_area(glyph_for(line.last()), x + (line.len() - 1) * (8 * scale), y, scale),
            TEXT_COLOR,
        )
    }
}

/// The canvas after `lines` are drawn top to bottom from `(x, y)`, one
/// line of `9 * scale` pixels apart.
pub open spec fn lines_drawn(m: Map<(int, int), Px>, dims: (u32, u32), lines: Seq<Seq<char>>, x: int, y: int, scale: int) -> Map<(int, int), Px>
    decreases lines.len(),
{
    if lines.len() == 0 {
        m
    } else {
        line_drawn(
            lines_drawn(m, dims, lines.drop_last(), x, y, scale),
            dims,
            lines.last(),
            x,
            y + (lines.len() - 1) * (9 * scale),
            scale,
        )
    }
}

/// Where the lines start: the bubble's corner moved in by the padding.
pub open spec fn text_origin(l: BubbleLayout) -> (int, int) {
    (l.bubble_x + text_padding(l), l.bubble_y + text_padding(l))
}

/// The marker's centre for the given shown lines, `bob` pixels off the
/// anchor vertically.
pub open spec fn marker_center(l: BubbleLayout, lines: Seq<Seq<char>>, bob: int) -> (int, int) {
    let scale = text_scale(l);
    let anchor = indicator_anchor_spec(l, lines, text_origin(l).0, text_origin(l).1, 8 * scale, 9 * scale);
    (anchor.0, anchor.1 + bob)
}

/// The marker's size.
pub open spec fn marker_size(l: BubbleLayout) -> int {
    max(text_scale(l) * 4, 4)
}

/// The canvas after the revealed text (and, once all of it is revealed,
/// the marker) is drawn into the bubble.
pub open spec fn text_drawn(m: Map<(int, int), Px>, dims: (u32, u32), st: BubbleState, l: BubbleLayout, bob: int) -> Map<(int, int), Px> {
    let visible = current_chars(st).take(min(st.visible as int, current_chars(st).len() as int));
    if visible.len() == 0 {
        m
    } else {
        let lines = shown_lines(visible, l).unwrap();
        let origin = text_origin(l);
        let scale = text_scale(l);
        let with_text = lines_drawn(m, dims, lines, origin.0, origin.1, scale);
        if finished(st) {
            let c = marker_center(l, lines, bob);
            let corners = indicator_corners(c.0, c.1, marker_size(l));
            paint(with_text, dims, on_pixels(triangle_area(corners.0, corners.1, corners.2)), TEXT_COLOR)
        } else {
            with_text
        }
    }
}

fn utf8_width_exec(c: char) -> (w: u64)
    ensures
        w == utf8_width(c),
{
    let u = c as u32;
    if u < 0x80 {
        1
    } else if u < 0x800 {
        2
    } else if u < 0x10000 {
        3
    } else {
        4
    }
}

proof fn lemma_utf8_len_bounds(s: Seq<char>)
    ensures
        s.len() <= utf8_len(s) <= 4 * s.len(),
    decreases s.len(),
{
    if s.len() > 0 {
        lemma_utf8_len_bounds(s.drop_last());
    }
}

/// The last line of text that does not fit, ending in `...`; `None` where
/// the cut would split a character.
fn ellipsize(s: &String) -> (r: Option<String>)
    ensures
        r is Some <==> ellipsized(s@) is Some,
        r matches Some(t) ==> ellipsized(s@) == Some(t@),
{
    let chars = chars_of(s.as_str());
    let n = chars.len();
    let mut bytes: u128 = 0;
    let mut i: usize = 0;
    while i < n
        invariant
            0 <= i <= n,
            chars@ == s@,
            n == s@.len(),
            bytes == utf8_len(s@.take(i as int)),
            bytes <= 4 * i,
        decreases n - i,
    {
        assert(s@.take(i + 1).drop_last() =~= s@.take(i as int));
        proof {
            lemma_utf8_len_bounds(s@.take(i as int));
        }
        bytes = bytes + utf8_width_exec(chars[i]) as u128;
        i += 1;
    }
    assert(s@.take(n as int) =~= s@);
    let keep: usize;
    if bytes >= 3 {
        if n >= 1 && utf8_width_exec(chars[n - 1]) == 3 {
            keep = n - 1;
        } else if n >= 2 && utf8_width_exec(chars[n - 1]) + utf8_width_exec(chars[n - 2]) == 3 {
            keep = n - 2;
        } else if n >= 3 && utf8_width_exec(chars[n - 1]) + utf8_width_exec(chars[n - 2]) + utf8_width_exec(chars[n - 3]) == 3 {
            keep = n - 3;
        } else {
            return None;
        }
    } else {
        keep = n;
    }
    let mut out = String::new();
    let mut k: usize = 0;
    while k < keep
        invariant
            0 <= k <= keep <= n,
            chars@ == s@,
            n == s@.len(),
            out@ == s@.take(k as int),
        decreases keep - k,
    {
        push_text_char(&mut out, chars[k]);
        assert(s@.take(k + 1) =~= s@.take(k as int).push(chars@[k as int]));
        k += 1;
    }
    push_text_char(&mut out, '.');
    push_text_char(&mut out, '.');
    push_text_char(&mut out, '.');
    assert(out@ =~= s@.take(keep as int) + seq!['.', '.', '.']);
    if bytes < 3 {
        assert(s@.take(keep as int) =~= s@);
    }
    Some(out)
}

/// The text and marker of `st` fit the coordinates they are drawn at:
/// every character position and line position stays within `u32`, and the
/// marker's corners within `i32`; and cutting off the last line splits no
/// character.
pub open spec fn text_fits(st: BubbleState, l: BubbleLayout, bob: int) -> bool {
    let visible = current_chars(st).take(min(st.visible as int, current_chars(st).len() as int));
    visible.len() > 0 ==> {
        &&& shown_lines(visible, l) is Some
        &&& {
            let lines = shown_lines(visible, l).unwrap();
            let origin = text_origin(l);
            let scale = text_scale(l);
            &&& origin.0 <= u32::MAX
            &&& origin.1 + lines.len() * (9 * scale) <= u32::MAX
            &&& forall|i: int| 0 <= i < lines.len() ==> origin.0 + #[trigger] lines[i].len() * (8 * scale) <= u32::MAX
            &&& finished(st) ==> {
                let anchor = indicator_anchor_spec(l, lines, origin.0, origin.1, 8 * scale, 9 * scale);
                let c = marker_center(l, lines, bob);
                let size = marker_size(l);
                &&& anchor.0 + size <= i32::MAX
                &&& anchor.1 <= i32::MAX
                &&& anchor.1 + bob + size <= i32::MAX
                &&& i32::MIN <= anchor.1 + bob - size
            }
        }
    }
}

/// The lines of `visible` as the bubble of `layout` shows them; `None`
/// where cutting off the last line would split a character.
fn visible_lines(visible: &str, layout: BubbleLayout) -> (r: Option<Vec<String>>)
    requires
        visible@.len() > 0,
    ensures
        r is Some <==> shown_lines(visible@, layout) is Some,
        r matches Some(lines) ==> Some(lines.deep_view()) == shown_lines(visible@, layout) && lines@.len() >= 1,
{
    let image_height = if layout.canvas_height >= layout.image_y { layout.canvas_height - layout.image_y } else { 0 };
    let font_scale = font_scale_for_image(image_height);
    let char_width = 8 * font_scale;
    let line_height = 9 * font_scale;
    let padding = clamp_exec(scaled_exec(image_height, 5, 100), 8, 28) as u32;
    let inner_w = if layout.bubble_width >= 2 * padding { layout.bubble_width - 2 * padding } else { 0 };
    let text_area_width = if inner_w >= 8 { inner_w } else { 8 };
    let inner_h = if layout.bubble_height >= 2 * padding { layout.bubble_height - 2 * padding } else { 0 };
    let text_area_height = if inner_h >= line_height { inner_h } else { line_height };
    let cols = text_area_width / char_width;
    let max_cols: usize = if cols >= 1 { cols as usize } else { 1 };
    let rows = text_area_height / line_height;
    let max_lines: usize = if rows >= 1 { rows as usize } else { 1 };
    assert(max_cols == text_cols(layout));
    assert(max_lines == text_rows(layout));
    let mut lines = wrap_text(visible, max_cols);
    proof {
        crate::text::lemma_wrap_lines_fit(visible@, max_cols as int);
    }
    if lines.len() > max_lines {
        let ghost full = lines.deep_view();
        lines.truncate(max_lines);
        let ghost kept = lines.deep_view();
        assert(kept =~= full.take(max_lines as int));
        let last = lines.pop().unwrap();
        assert(last@ == kept.last());
        match ellipsize(&last) {
            Some(t) => {
                lines.push(t);
                assert(lines.deep_view() =~= kept.update(max_lines - 1, t@));
            },
            None => {
                return None;
            },
        }
    }
    Some(lines)
}

/// Draws the characters of `line` left to right from `(x, y)`.
fn draw_text_line(target: &mut Canvas, line: &String, x: u32, y: u32, scale: u32)
    requires
        canvas_wf(*old(target)),
        x + line@.len() * (8 * scale) <= u32::MAX,
    ensures
        canvas_wf(*final(target)),
        canvas_dims(*final(target)) == canvas_dims(*old(target)),
        canvas_pixels(*final(target)) == line_drawn(canvas_pixels(*old(target)), canvas_dims(*old(target)), line@, x as int,
            y as int, scale as int),
{
    let ghost base = canvas_pixels(*target);
    let ghost dims = canvas_dims(*target);
    let chars = chars_of(line.as_str());
    let mut ci: usize = 0;
    assert(line@.take(0) =~= Seq::<char>::empty());
    while ci < chars.len()
        invariant
            0 <= ci <= chars.len(),
            chars@ == line@,
            x + line@.len() * (8 * scale) <= u32::MAX,
            canvas_wf(*target),
            canvas_dims(*target) == dims,
            canvas_pixels(*target) == line_drawn(base, dims, line@.take(ci as int), x as int, y as int, scale as int),
        decreases chars.len() - ci,
    {
        assert(ci * (8 * scale) <= line@.len() * (8 * scale)) by (nonlinear_arith)
            requires ci < line@.len(), scale >= 0;
        assert(ci * (8 * scale) == (ci as int) * (8 * (scale as int)));
        let offset = (ci as u64) * (8 * (scale as u64));
        assert(offset == ci * (8 * scale));
        let cx = x + offset as u32;
        draw_char(target, cx, y, chars[ci], scale, TEXT_COLOR);
        assert(line@.take(ci + 1).drop_last() =~= line@.take(ci as int));
        ci += 1;
    }
    assert(line@.take(ci as int) =~= line@);
}

/// Draws `lines` top to bottom from `(x, y)`.
fn draw_lines(target: &mut Canvas, lines: &Vec<String>, x: u32, y: u32, scale: u32)
    requires
        canvas_wf(*old(target)),
        y + lines@.len() * (9 * scale) <= u32::MAX,
        forall|i: int| 0 <= i < lines@.len() ==> x + #[trigger] lines.deep_view()[i].len() * (8 * scale) <= u32::MAX,
    ensures
        canvas_wf(*final(target)),
        canvas_dims(*final(target)) == canvas_dims(*old(target)),
        canvas_pixels(*final(target)) == lines_drawn(canvas_pixels(*old(target)), canvas_dims(*old(target)), lines.deep_view(),
            x as int, y as int, scale as int),
{
    let ghost m0 = canvas_pixels(*target);
    let ghost dims = canvas_dims(*target);
    let ghost shown = lines.deep_view();
    let mut li: usize = 0;
    assert(shown.take(0) =~= Seq::<Seq<char>>::empty());
    while li < lines.len()
        invariant
            0 <= li <= lines.len(),
            shown == lines.deep_view(),
            y + lines@.len() * (9 * scale) <= u32::MAX,
            forall|i: int| 0 <= i < lines@.len() ==> x + #[trigger] shown[i].len() * (8 * scale) <= u32::MAX,
            canvas_wf(*target),
            canvas_dims(*target) == dims,
            canvas_pixels(*target) == lines_drawn(m0, dims, shown.take(li as int), x as int, y as int, scale as int),
        decreases lines.len() - li,
    {
        assert(li * (9 * scale) <= lines@.len() * (9 * scale)) by (nonlinear_arith)
            requires li < lines@.len(), scale >= 0;
        let offset = (li as u64) * (9 * (scale as u64));
        let ly = y + offset as u32;
        assert(lines[li as int]@ == shown[li as int]);
        draw_text_line(target, &lines[li], x, ly, scale);
        assert(shown.take(li + 1).drop_last() =~= shown.take(li as int));
        li += 1;
    }
    assert(shown.take(li as int) =~= shown);
}

/// The layout of `st`'s bubble above a `w` by `h` image.
pub open spec fn state_layout(st: BubbleState, w: int, h: int) -> BubbleLayout {
    layout_spec(current_chars(st), w, h)
}

/// Composing `st` with a `dims` image stays within what the machine holds:
/// the layout fits 32-bit coordinates, the canvas fits in memory, and the
/// bubble and its text can be drawn (see `drawable` and `text_fits`).
pub open spec fn compose_fits(st: BubbleState, dims: (u32, u32), bob: int) -> bool {
    let l = state_layout(st, dims.0 as int, dims.1 as int);
    &&& layout_fits_u32(current_chars(st), dims.0 as int, dims.1 as int)
    &&& l.canvas_width * l.canvas_height * 4 <= usize::MAX
    &&& drawable(l)
    &&& text_fits(st, l, bob)
}

/// The picture `compose` makes of `st` and an image: a transparent canvas
/// of the layout's size, the image laid over it at its offset, the bubble
/// drawn above, and the revealed text in the bubble.
pub open spec fn composed(st: BubbleState, image: Map<(int, int), Px>, dims: (u32, u32), bob: int) -> Map<(int, int), Px> {
    let l = state_layout(st, dims.0 as int, dims.1 as int);
    let cdims = (l.canvas_width, l.canvas_height);
    let with_image = overlaid(blank(cdims), cdims, image, dims, l.image_x as int, l.image_y as int);
    text_drawn(bubble_drawn(with_image, cdims, l), cdims, st, l, bob)
}

proof fn lemma_line_drawn_keeps(m: Map<(int, int), Px>, dims: (u32, u32), line: Seq<char>, x: int, y: int, scale: int, k: (int, int))
    requires
        m.dom().contains(k),
        k.1 >= y + 8 * scale,
    ensures
        line_drawn(m, dims, line, x, y, scale).dom().contains(k),
        line_drawn(m, dims, line, x, y, scale)[k] == m[k],
    decreases line.len(),
{
    if line.len() > 0 {
        lemma_line_drawn_keeps(m, dims, line.drop_last(), x, y, scale, k);
    }
}

proof fn lemma_lines_drawn_keeps(
    m: Map<(int, int), Px>, dims: (u32, u32), lines: Seq<Seq<char>>, x: int, y: int, scale: int, k: (int, int),
)
    requires
        m.dom().contains(k),
        scale >= 0,
        y + lines.len() * (9 * scale) <= k.1,
    ensures
        lines_drawn(m, dims, lines, x, y, scale).dom().contains(k),
        lines_drawn(m, dims, lines, x, y, scale)[k] == m[k],
    decreases lines.len(),
{
    if lines.len() > 0 {
        let n = lines.len() as int;
        assert((n - 1) * (9 * scale) + 9 * scale == n * (9 * scale)) by (nonlinear_arith);
        lemma_lines_drawn_keeps(m, dims, lines.drop_last(), x, y, scale, k);
        lemma_line_drawn_keeps(
            lines_drawn(m, dims, lines.drop_last(), x, y, scale), dims, lines.last(), x, y + (n - 1) * (9 * scale), scale, k);
    }
}

proof fn lemma_line_drawn_set(m0: Map<(int, int), Px>, m: Map<(int, int), Px>, dims: (u32, u32), line: Seq<char>, x: int, y: int, scale: int)
    requires
        kept_or_set(m0, m, TEXT_COLOR),
    ensures
        kept_or_set(m0, line_drawn(m, dims, line, x, y, scale), TEXT_COLOR),
    decreases line.len(),
{
    if line.len() > 0 {
        lemma_line_drawn_set(m0, m, dims, line.drop_last(), x, y, scale);
        lemma_paint_opaque(m0, line_drawn(m, dims, line.drop_last(), x, y, scale), dims,
            glyph_area(glyph_for(line.last()), x + (line.len() - 1) * (8 * scale), y, scale), TEXT_COLOR);
    }
}

proof fn lemma_lines_drawn_set(m0: Map<(int, int), Px>, m: Map<(int, int), Px>, dims: (u32, u32), lines: Seq<Seq<char>>, x: int, y: int, scale: int)
    requires
        kept_or_set(m0, m, TEXT_COLOR),
    ensures
        kept_or_set(m0, lines_drawn(m, dims, lines, x, y, scale), TEXT_COLOR),
    decreases lines.len(),
{
    if lines.len() > 0 {
        lemma_lines_drawn_set(m0, m, dims, lines.drop_last(), x, y, scale);
        lemma_line_drawn_set(m0, lines_drawn(m, dims, lines.drop_last(), x, y, scale), dims, lines.last(), x,
            y + (lines.len() - 1) * (9 * scale), scale);
    }
}

/// Drawing the text and the marker changes a pixel only to the text's
/// colour, which is opaque and so replaces whatever was below it.
pub proof fn lemma_text_only_sets_text_color(m: Map<(int, int), Px>, dims: (u32, u32), st: BubbleState, l: BubbleLayout, bob: int)
    ensures
        kept_or_set(m, text_drawn(m, dims, st, l, bob), TEXT_COLOR),
{
    assert(kept_or_set(m, m, TEXT_COLOR));
    let visible = current_chars(st).take(min(st.visible as int, current_chars(st).len() as int));
    if visible.len() > 0 {
        let lines = shown_lines(visible, l).unwrap();
        let origin = text_origin(l);
        let scale = text_scale(l);
        lemma_lines_drawn_set(m, m, dims, lines, origin.0, origin.1, scale);
        let with_text = lines_drawn(m, dims, lines, origin.0, origin.1, scale);
        if finished(st) {
            let c = marker_center(l, lines, bob);
            let corners = indicator_corners(c.0, c.1, marker_size(l));
            lemma_paint_opaque(m, with_text, dims, on_pixels(triangle_area(corners.0, corners.1, corners.2)), TEXT_COLOR);
        }
    }
}

/// The rows of text that fit the bubble end above its bottom edge, less
/// the padding, or (where not even one row fits that way) within 55 pixels
/// of its top.
proof fn lemma_rows_fit(l: BubbleLayout)
    ensures
        text_rows(l) >= 1,
        text_rows(l) * (9 * text_scale(l)) <= l.bubble_height - 2 * text_padding(l) || (text_rows(l) == 1 && 9 * text_scale(l)
            + text_padding(l) <= 55),
        8 <= text_padding(l) <= 28,
        1 <= text_scale(l) <= 3,
{
    let lh = 9 * text_scale(l);
    let p = text_padding(l);
    let height = max(sat_sub(l.bubble_height as int, 2 * p), lh);
    assert(height / lh >= 1) by (nonlinear_arith)
        requires height >= lh, lh > 0;
    assert((height / lh) * lh <= height) by (nonlinear_arith)
        requires height >= 0, lh > 0;
    if sat_sub(l.bubble_height as int, 2 * p) < lh {
        assert(height / lh == 1) by (nonlinear_arith)
            requires height == lh, lh > 0;
    }
}

/// The revealed text and the marker leave a pixel below the bubble's tail
/// as it was.
proof fn lemma_text_above(m: Map<(int, int), Px>, cdims: (u32, u32), st: BubbleState, l: BubbleLayout, bob: int, k: (int, int))
    requires
        m.dom().contains(k),
        text_fits(st, l, bob),
        -16 <= bob <= 16,
        l.bubble_y >= 8,
        l.bubble_height >= 72,
        l.bubble_y + l.bubble_height + 12 <= l.image_y,
        l.image_y <= k.1 <= u32::MAX,
    ensures
        text_drawn(m, cdims, st, l, bob)[k] == m[k],
{
    let visible = current_chars(st).take(min(st.visible as int, current_chars(st).len() as int));
    if visible.len() > 0 {
        let lines = shown_lines(visible, l).unwrap();
        let origin = text_origin(l);
        let scale = text_scale(l);
        let lh = 9 * scale;
        let rows = text_rows(l);
        lemma_rows_fit(l);
        crate::text::lemma_wrap_lines_fit(visible, text_cols(l));
        assert(1 <= lines.len() <= rows);
        assert(lines.len() * lh <= rows * lh) by (nonlinear_arith)
            requires lines.len() <= rows, lh > 0;
        if rows * lh <= l.bubble_height - 2 * text_padding(l) {
            assert(origin.1 + lines.len() * lh <= l.bubble_y + l.bubble_height - text_padding(l));
        } else {
            assert(lines.len() * lh == lh) by (nonlinear_arith)
                requires lines.len() == 1;
        }
        assert(origin.1 + lines.len() * lh < l.image_y);
        lemma_lines_drawn_keeps(m, cdims, lines, origin.0, origin.1, scale, k);
        if finished(st) {
            let n = lines.len() as int;
            assert((n - 1) * lh + lh == n * lh) by (nonlinear_arith);
            assert(0 <= (n - 1) * lh) by (nonlinear_arith)
                requires n >= 1, lh > 0;
            let anchor = indicator_anchor_spec(l, lines, origin.0, origin.1, 8 * scale, lh);
            assert(anchor.1 == origin.1 + (n - 1) * lh + lh / 2);
            let cm = marker_center(l, lines, bob);
            let corners = indicator_corners(cm.0, cm.1, marker_size(l));
            assert(corners.0.1 >= 0);
            assert(corners.2.1 < l.image_y);
        }
    }
}

/// Composing leaves the character image as it lies on the transparent
/// canvas: nothing of the bubble, its tail, the text or the marker reaches
/// a pixel at or below the image's top edge (the marker bobbing at most 16
/// pixels either way).
pub proof fn lemma_image_untouched(st: BubbleState, image: Map<(int, int), Px>, dims: (u32, u32), bob: int, x: int, y: int)
    requires
        compose_fits(st, dims, bob),
        -16 <= bob <= 16,
        ({
            let l = state_layout(st, dims.0 as int, dims.1 as int);
            0 <= x < l.canvas_width && l.image_y <= y < l.canvas_height
        }),
    ensures
        ({
            let l = state_layout(st, dims.0 as int, dims.1 as int);
            let cdims = (l.canvas_width, l.canvas_height);
            composed(st, image, dims, bob)[(x, y)] == overlaid(blank(cdims), cdims, image, dims, l.image_x as int,
                l.image_y as int)[(x, y)]
        }),
{
    let l = state_layout(st, dims.0 as int, dims.1 as int);
    let cdims = (l.canvas_width, l.canvas_height);
    let k = (x, y);
    lemma_layout_geometry(current_chars(st), dims.0 as int, dims.1 as int);
    let m0 = overlaid(blank(cdims), cdims, image, dims, l.image_x as int, l.image_y as int);
    assert(m0.dom().contains(k));
    lemma_bubble_rows_kept(m0, cdims, l, k);
    lemma_text_above(bubble_drawn(m0, cdims, l), cdims, st, l, bob, k);
}

proof fn lemma_ellipsized_len(s: Seq<char>)
    ensures
        ellipsized(s) matches Some(e) ==> e.len() <= s.len() + 3,
{
}

/// The revealed text can be cut off without splitting a character (so the
/// bubble can show it).
pub open spec fn text_cut_ok(st: BubbleState, l: BubbleLayout) -> bool {
    let visible = current_chars(st).take(min(st.visible as int, current_chars(st).len() as int));
    visible.len() > 0 ==> shown_lines(visible, l) is Some
}

proof fn lemma_shown_line_lens(visible: Seq<char>, l: BubbleLayout)
    requires
        visible.len() > 0,
        shown_lines(visible, l) is Some,
    ensures
        1 <= shown_lines(visible, l).unwrap().len() <= text_rows(l),
        forall|i: int| 0 <= i < shown_lines(visible, l).unwrap().len() ==> #[trigger] shown_lines(visible, l).unwrap()[i].len()
            <= text_cols(l) + 3,
{
    let cols = text_cols(l);
    let rows = text_rows(l);
    let lines = shown_lines(visible, l).unwrap();
    let wrapped = wrapped_lines(visible, cols);
    lemma_rows_fit(l);
    crate::text::lemma_wrap_lines_fit(visible, cols);
    assert forall|i: int| 0 <= i < lines.len() implies #[trigger] lines[i].len() <= cols + 3 by {
        if wrapped.len() > rows {
            lemma_ellipsized_len(wrapped.take(rows).last());
            if i < rows - 1 {
                assert(lines[i] == wrapped[i]);
            } else {
                assert(wrapped.take(rows).last() == wrapped[rows - 1]);
            }
        } else {
            assert(lines[i] == wrapped[i]);
        }
    }
}

proof fn lemma_small_text_fits(st: BubbleState, l: BubbleLayout, bob: int)
    requires
        -16 <= bob <= 16,
        l.bubble_x + l.bubble_width <= 4096,
        l.bubble_y + l.bubble_height <= 1000,
        text_cut_ok(st, l),
    ensures
        text_fits(st, l, bob),
{
    let visible = current_chars(st).take(min(st.visible as int, current_chars(st).len() as int));
    if visible.len() > 0 {
        let lines = shown_lines(visible, l).unwrap();
        let origin = text_origin(l);
        let scale = text_scale(l);
        let cols = text_cols(l);
        let rows = text_rows(l);
        lemma_rows_fit(l);
        lemma_shown_line_lens(visible, l);
        if !(rows * (9 * scale) <= l.bubble_height - 2 * text_padding(l)) {
            assert(rows * (9 * scale) == 9 * scale) by (nonlinear_arith)
                requires rows == 1;
        }
        assert(rows * (9 * scale) <= 1000);
        assert(lines.len() * (9 * scale) <= rows * (9 * scale)) by (nonlinear_arith)
            requires lines.len() <= rows, scale >= 1;
        let width = max(sat_sub(l.bubble_width as int, 2 * text_padding(l)), 8);
        assert(width <= 4096);
        assert(cols * (8 * scale) <= 4096 + 24) by (nonlinear_arith)
            requires cols == max(width / (8 * scale), 1), 8 <= width <= 4096, 1 <= scale <= 3;
        assert forall|i: int| 0 <= i < lines.len() implies origin.0 + #[trigger] lines[i].len() * (8 * scale) <= u32::MAX by {
            assert(lines[i].len() * (8 * scale) <= cols * (8 * scale) + 24 * scale) by (nonlinear_arith)
                requires lines[i].len() <= cols + 3, scale >= 1;
            assert(origin.0 <= 4096 + 28);
        }
        if finished(st) {
            let n = lines.len() as int;
            assert(0 <= (n - 1) * (9 * scale) <= 1000) by (nonlinear_arith)
                requires 1 <= n, n * (9 * scale) <= 1000, scale >= 1;
        }
    }
}

/// For images up to 4096 pixels a side and a marker bobbing at most 16
/// pixels, everything `compose` asks of its input holds, as long as
/// cutting off the text splits no character.
pub proof fn lemma_small_images_compose(st: BubbleState, dims: (u32, u32), bob: int)
    requires
        dims.0 <= 4096,
        dims.1 <= 4096,
        -16 <= bob <= 16,
        text_cut_ok(st, state_layout(st, dims.0 as int, dims.1 as int)),
    ensures
        compose_fits(st, dims, bob),
{
    let (w, h) = (dims.0 as int, dims.1 as int);
    let text = current_chars(st);
    let l = state_layout(st, w, h);
    assert(scaled(crate::layout::min(w, h), 4, 100) <= crate::layout::min(w, h)) by (nonlinear_arith)
        requires 0 <= crate::layout::min(w, h);
    assert(scaled(w, 92, 100) <= w) by (nonlinear_arith)
        requires 0 <= w;
    assert(layout_fits_u32(text, w, h));
    lemma_layout_geometry(text, w, h);
    let (cw, ch) = (l.canvas_width as int, l.canvas_height as int);
    assert(cw <= 4096 && ch <= 5096);
    assert(cw * ch * 4 <= 4096 * 5096 * 4) by (nonlinear_arith)
        requires 0 <= cw <= 4096, 0 <= ch <= 5096;
    lemma_small_text_fits(st, l, bob);
}

/// For images up to 4096 pixels a side (and a marker bobbing at most 16
/// pixels), every opaque pixel of the image appears unchanged at its place
/// on the composed canvas: the bubble, its tail and its text never cover
/// the image.
pub proof fn lemma_opaque_image_shown(st: BubbleState, image: Map<(int, int), Px>, dims: (u32, u32), bob: int, x: int, y: int)
    requires
        dims.0 <= 4096,
        dims.1 <= 4096,
        -16 <= bob <= 16,
        text_cut_ok(st, state_layout(st, dims.0 as int, dims.1 as int)),
        0 <= x < dims.0,
        0 <= y < dims.1,
        image[(x, y)].3 == 255,
    ensures
        ({
            let l = state_layout(st, dims.0 as int, dims.1 as int);
            composed(st, image, dims, bob)[(l.image_x + x, l.image_y + y)] == image[(x, y)]
        }),
{
    let l = state_layout(st, dims.0 as int, dims.1 as int);
    lemma_small_images_compose(st, dims, bob);
    lemma_layout_geometry(current_chars(st), dims.0 as int, dims.1 as int);
    lemma_image_untouched(st, image, dims, bob, l.image_x + x, l.image_y + y);
}

/// The bubble holds the text it shows: wherever the text, wrapped at the
/// columns the bubble's text area draws it at (`text_cols`), fits the
/// tallest bubble, the bubble has a row (`text_rows`) for every line, so no
/// line is cut off.
pub proof fn lemma_bubble_holds_text(text: Seq<char>, w: int, h: int)
    requires
        0 <= w <= u32::MAX,
        0 <= h <= u32::MAX,
        layout_fits_u32(text, w, h),
        ({
            let l = layout_spec(text, w, h);
            max(wrapped_lines(text, text_cols(l)).len() as int, 1) * (9 * text_scale(l)) + 2 * text_padding(l) + 4 <= clamp(
                scaled(h, 72, 100), 120, 540)
        }),
    ensures
        ({
            let l = layout_spec(text, w, h);
            text_rows(l) >= wrapped_lines(text, text_cols(l)).len()
        }),
{
    let l = layout_spec(text, w, h);
    lemma_layout_geometry(text, w, h);
    assert(text_image_height(l) == h);
    let scale = text_scale(l);
    let lh = 9 * scale;
    let p = text_padding(l);
    assert(scale == font_scale_spec(h) && p == padding_spec(h));
    assert(8 <= p <= 28 && 1 <= scale <= 3);
    let bw = bubble_width_spec(w);
    assert(scaled(w, 92, 100) <= w) by (nonlinear_arith)
        requires 0 <= w;
    assert(l.bubble_width == bw);
    assert(text_cols(l) == max_cols_spec(w, h));
    let n = wrapped_lines(text, text_cols(l)).len() as int;
    let lines = max(n, 1);
    assert(lines * lh <= 540);
    assert(1 <= lines <= 60) by (nonlinear_arith)
        requires lines * lh <= 540, lh >= 9, lines >= 1;
    assert((lines as u32) as int == lines);
    assert(sat_u32(lines * lh) == lines * lh);
    let bh = bubble_height_spec(text, w, h);
    assert(bh >= lines * lh + 2 * p + 4);
    assert(l.bubble_height == bh);
    let height = max(sat_sub(bh, 2 * p), lh);
    assert(height >= lines * lh);
    assert(height / lh >= lines) by (nonlinear_arith)
        requires height >= lines * lh, lh > 0;
}

/// Once the message on show is fully revealed, the composed canvas shows
/// the "continue" marker: every canvas pixel of the downward triangle at
/// the anchor after the last shown line holds the text colour.
pub proof fn lemma_marker_shown(st: BubbleState, image: Map<(int, int), Px>, dims: (u32, u32), bob: int, x: int, y: int)
    requires
        finished(st),
        current_chars(st).len() > 0,
        text_cut_ok(st, state_layout(st, dims.0 as int, dims.1 as int)),
        ({
            let l = state_layout(st, dims.0 as int, dims.1 as int);
            let lines = shown_lines(current_chars(st), l).unwrap();
            let c = marker_center(l, lines, bob);
            let k = indicator_corners(c.0, c.1, marker_size(l));
            &&& in_bounds((l.canvas_width, l.canvas_height), x, y)
            &&& on_pixels(triangle_area(k.0, k.1, k.2))(x, y)
        }),
    ensures
        composed(st, image, dims, bob)[(x, y)] == TEXT_COLOR,
{
    let l = state_layout(st, dims.0 as int, dims.1 as int);
    let cdims = (l.canvas_width, l.canvas_height);
    let text = current_chars(st);
    let visible = text.take(min(st.visible as int, text.len() as int));
    assert(visible =~= text);
    let m0 = overlaid(blank(cdims), cdims, image, dims, l.image_x as int, l.image_y as int);
    assert(m0.dom().contains((x, y)));
    lemma_bubble_drawn_alpha(m0, cdims, l);
    let drawn = bubble_drawn(m0, cdims, l);
    assert(drawn.dom().contains((x, y)));
    let lines = shown_lines(visible, l).unwrap();
    let origin = text_origin(l);
    let scale = text_scale(l);
    assert(kept_or_set(drawn, drawn, TEXT_COLOR));
    lemma_lines_drawn_set(drawn, drawn, cdims, lines, origin.0, origin.1, scale);
    let with_text = lines_drawn(drawn, cdims, lines, origin.0, origin.1, scale);
    assert(with_text.dom().contains((x, y)));
    lemma_opaque_source_replaces(with_text[(x, y)], TEXT_COLOR);
}

pub struct SpeechBubble {
    current_text: Option<String>,
    queued_messages: VecDeque<String>,
    visible_chars: usize,
    reveal_progress: u128,
    normal_chars_per_second: u128,
    fast_chars_per_second: u128,
    speed_up_active: bool,
    indicator_phase: u128,
}

impl View for SpeechBubble {
    type V = BubbleState;

    closed spec fn view(&self) -> BubbleState {
        BubbleState {
            current: match self.current_text {
                Some(s) => Some(s@),
                None => None,
            },
            queue: self.queued_messages@.map_values(|s: String| s@),
            visible: self.visible_chars as nat,
            progress: self.reveal_progress as nat,
            speed_up: self.speed_up_active,
            phase: self.indicator_phase as nat,
        }
    }
}

impl SpeechBubble {
    /// What every bubble keeps true: nothing waits without a message on
    /// show, no message is blank and every one is counted in `usize`, the
    /// revealed count never exceeds the message and equals the whole
    /// characters of progress (capped at the message's length), and the
    /// reveal rates are 24 and 96 per second.
    pub closed spec fn wf(&self) -> bool {
        &&& self.normal_chars_per_second == NORMAL_CHARS_PER_SECOND
        &&& self.fast_chars_per_second == FAST_CHARS_PER_SECOND
        &&& self@.current is None ==> self@.queue.len() == 0 && self@.visible == 0 && self@.progress == 0
        &&& self@.current matches Some(m) ==> !is_blank(m)
        &&& forall|i: int| 0 <= i < self@.queue.len() ==> !is_blank(#[trigger] self@.queue[i])
        &&& total_chars_of(self@) <= usize::MAX
        &&& forall|i: int| 0 <= i < self@.queue.len() ==> #[trigger] self@.queue[i].len() <= usize::MAX
        &&& self@.visible <= total_chars_of(self@)
        &&& self@.visible == if self@.progress / (NANOS_PER_SECOND as nat) <= total_chars_of(self@) {
            self@.progress / (NANOS_PER_SECOND as nat)
        } else {
            total_chars_of(self@)
        }
    }

    /// What a well-formed bubble keeps, as its state shows it: nothing waits
    /// without a message on show, nothing shown or queued is blank, the
    /// revealed count follows the progress, and the message on show has at
    /// most `usize::MAX` characters.
    pub proof fn lemma_wf_state(&self)
        requires
            self.wf(),
        ensures
            self@.current is None ==> self@.queue.len() == 0,
            self@.current matches Some(m) ==> !is_blank(m),
            forall|i: int| 0 <= i < self@.queue.len() ==> !is_blank(#[trigger] self@.queue[i]),
            reveal_consistent(self@),
            self@.visible <= total_chars_of(self@),
            total_chars_of(self@) <= usize::MAX,
    {
    }

    /// A bubble showing `initial_text`, or nothing if it is blank.
    pub fn new(initial_text: String) -> (b: SpeechBubble)
        ensures
            b.wf(),
            b@ == pushed(cleared(), initial_text@),
    {
        let mut bubble = SpeechBubble {
            current_text: None,
            queued_messages: VecDeque::new(),
            visible_chars: 0,
            reveal_progress: 0,
            normal_chars_per_second: NORMAL_CHARS_PER_SECOND,
            fast_chars_per_second: FAST_CHARS_PER_SECOND,
            speed_up_active: false,
            indicator_phase: 0,
        };
        assert(bubble@.queue =~= Seq::<Seq<char>>::empty());
        assert(bubble@ == cleared());
        bubble.push_message(initial_text);
        bubble
    }

    /// Queues `message`; a blank one is ignored, and with nothing on show
    /// it is shown at once.
    pub fn push_message(&mut self, message: String)
        requires
            old(self).wf(),
        ensures
            final(self).wf(),
            final(self)@ == pushed(old(self)@, message@),
    {
        if is_blank_str(message.as_str()) {
            return;
        }
        if self.current_text.is_none() {
            self.start_message(message);
        } else {
            let ghost q = self.queued_messages@;
            self.queued_messages.push_back(message);
            assert(self.queued_messages@.map_values(|s: String| s@) =~= q.map_values(|s: String| s@).push(message@));
        }
    }

    /// Drops the message on show and everything queued.
    pub fn clear_messages(&mut self)
        requires
            old(self).wf(),
        ensures
            final(self).wf(),
            final(self)@ == cleared(),
    {
        self.current_text = None;
        self.queued_messages.clear();
        self.visible_chars = 0;
        self.reveal_progress = 0;
        self.speed_up_active = false;
        self.indicator_phase = 0;
        assert(self@.queue =~= Seq::<Seq<char>>::empty());
    }

    /// Whether a message is on show.
    pub fn is_visible(&self) -> (r: bool)
        ensures
            r == (self@.current is Some),
    {
        self.current_text.is_some()
    }

    /// Whether the message on show is fully revealed and waits to be
    /// advanced.
    pub fn awaiting_advance(&self) -> (r: bool)
        requires
            self.wf(),
        ensures
            r == finished(self@),
    {
        self.is_visible() && self.is_finished()
    }

    /// Whether a message is on show and all of it is revealed.
    pub fn is_finished(&self) -> (r: bool)
        requires
            self.wf(),
        ensures
            r == finished(self@),
    {
        if self.current_text.is_none() {
            return false;
        }
        self.visible_chars >= self.total_chars()
    }

    /// The characters of the message on show.
    fn total_chars(&self) -> (n: usize)
        ensures
            n == total_chars_of(self@),
    {
        match &self.current_text {
            Some(s) => s.as_str().unicode_len(),
            None => 0,
        }
    }

    /// The message on show, or the empty string.
    pub fn current_text(&self) -> (t: &str)
        ensures
            t@ == current_chars(self@),
    {
        match &self.current_text {
            Some(s) => s.as_str(),
            None => {
                proof {
                    reveal_strlit("");
                }
                ""
            },
        }
    }

    /// Shows the next queued message once the current one is fully
    /// revealed, or clears the bubble when none is left; returns whether it
    /// advanced.
    pub fn advance_message(&mut self) -> (r: bool)
        requires
            old(self).wf(),
        ensures
            final(self).wf(),
            (final(self)@, r) == advanced(old(self)@),
            r ==> finished(old(self)@),
            !finished(old(self)@) ==> !r && final(self)@ == old(self)@,
    {
        if !self.awaiting_advance() {
            return false;
        }
        let ghost q = self.queued_messages@;
        match self.queued_messages.pop_front() {
            Some(next) => {
                assert(self.queued_messages@.map_values(|s: String| s@) =~= q.map_values(|s: String| s@).drop_first());
                assert forall|i: int| 0 <= i < self@.queue.len() implies !is_blank(#[trigger] self@.queue[i])
                    && self@.queue[i].len() <= usize::MAX by {
                    assert(self@.queue[i] == old(self)@.queue[i + 1]);
                }
                assert(next@.len() <= usize::MAX) by {
                    assert(next@ == old(self)@.queue[0]);
                }
                assert(!is_blank(next@)) by {
                    assert(next@ == old(self)@.queue[0]);
                }
                self.start_message(next);
                return true;
            },
            None => {},
        }
        self.clear_messages();
        true
    }

    /// Turns the fast reveal rate on or off.
    pub fn set_speed_up(&mut self, enabled: bool)
        requires
            old(self).wf(),
        ensures
            final(self).wf(),
            final(self)@ == (BubbleState { speed_up: enabled, ..old(self)@ }),
    {
        self.speed_up_active = enabled;
    }

    /// While a message is on show: switches to the fast rate and reveals
    /// one more character right away.
    pub fn boost_once(&mut self)
        requires
            old(self).wf(),
        ensures
            final(self).wf(),
            final(self)@ == boosted(old(self)@),
            old(self)@.current is Some ==> final(self)@.speed_up,
    {
        if !self.is_visible() {
            return;
        }
        self.speed_up_active = true;
        if !self.is_finished() {
            let total = self.total_chars();
            let next = if self.visible_chars + 1 <= total { self.visible_chars + 1 } else { total };
            self.visible_chars = next;
            self.reveal_progress = next as u128 * NANOS_PER_SECOND;
            assert((next as int * 1_000_000_000) / 1_000_000_000int == next as int) by (nonlinear_arith)
                requires next >= 0;
        }
    }

    /// Lets `nanos` nanoseconds pass: the marker's clock runs while a
    /// message is on show, and an unfinished message reveals 24 (or, sped
    /// up, 96) characters per second.  Returns whether the number of
    /// revealed characters changed.  Progress is counted exactly, in
    /// billionths of a character, so ten updates of 100 ms reveal exactly 24
    /// characters; summing seconds in single-precision floats would fall a
    /// hair short and show one fewer until the next update.
    pub fn advance_time(&mut self, nanos: u128) -> (changed: bool)
        requires
            old(self).wf(),
        ensures
            final(self).wf(),
            (final(self)@, changed) == ticked(old(self)@, nanos as nat),
    {
        if !self.is_visible() {
            return false;
        }
        let done = self.is_finished();
        let ghost before = self@;
        self.indicator_phase = self.indicator_phase.saturating_add(nanos);
        assert(self@.queue == before.queue);
        assert(self@.current == before.current);
        if done {
            return false;
        }
        let rate = if self.speed_up_active { self.fast_chars_per_second } else { self.normal_chars_per_second };
        let gained = nanos.checked_mul(rate);
        let gained = match gained {
            Some(g) => g,
            None => u128::MAX,
        };
        self.reveal_progress = self.reveal_progress.saturating_add(gained);
        let whole = self.reveal_progress / NANOS_PER_SECOND;
        let total = self.total_chars();
        let clamped = if whole <= total as u128 { whole as usize } else { total };
        let changed = clamped != self.visible_chars;
        self.visible_chars = clamped;
        changed
    }

    /// Lets `delta` pass (see `advance_time`).
    pub fn update(&mut self, delta: Duration) -> (changed: bool)
        requires
            old(self).wf(),
        ensures
            final(self).wf(),
            (final(self)@, changed) == ticked(old(self)@, duration_nanos(delta) as nat),
    {
        let nanos = duration_as_nanos(delta);
        self.advance_time(nanos)
    }

    /// Draws the revealed text into the bubble and, once all of it is
    /// revealed, the marker `indicator_bob` pixels off its resting place.
    fn draw_text(&self, target: &mut Canvas, layout: BubbleLayout, indicator_bob: i32)
        requires
            self.wf(),
            canvas_wf(*old(target)),
            text_fits(self@, layout, indicator_bob as int),
        ensures
            canvas_wf(*final(target)),
            canvas_dims(*final(target)) == canvas_dims(*old(target)),
            canvas_pixels(*final(target)) == text_drawn(canvas_pixels(*old(target)), canvas_dims(*old(target)), self@, layout,
                indicator_bob as int),
    {
        let visible = take_chars(self.current_text(), self.visible_chars);
        if visible.as_str().is_empty() {
            return;
        }
        let lines = match visible_lines(visible.as_str(), layout) {
            Some(lines) => lines,
            None => {
                return;
            },
        };
        let ghost shown = lines.deep_view();
        let image_height = if layout.canvas_height >= layout.image_y { layout.canvas_height - layout.image_y } else { 0 };
        let font_scale = font_scale_for_image(image_height);
        let padding = clamp_exec(scaled_exec(image_height, 5, 100), 8, 28) as u32;
        let start_x = layout.bubble_x + padding;
        let start_y = layout.bubble_y + padding;
        assert(start_x == text_origin(layout).0 && start_y == text_origin(layout).1);
        assert(font_scale == text_scale(layout));
        draw_lines(target, &lines, start_x, start_y, font_scale);
        if self.awaiting_advance() {
            assert(lines@.map_values(|s: String| s@) =~= shown);
            let (ix, iy) = indicator_anchor(layout, lines.as_slice(), start_x, start_y, 8 * font_scale, 9 * font_scale);
            let size = (if font_scale * 4 >= 4 { font_scale * 4 } else { 4 }) as i32;
            let cy = iy as i32 + indicator_bob;
            draw_inverted_triangle_indicator(target, ix as i32, cy, size, TEXT_COLOR);
        }
    }

    /// How long the message has been on show, in nanoseconds; the marker's
    /// bobbing follows it.
    pub fn indicator_phase(&self) -> (n: u128)
        ensures
            n == self@.phase,
    {
        self.indicator_phase
    }

    /// A click on the bubble: advances a fully revealed message, else
    /// speeds the reveal up and shows one more character.
    pub fn click(&mut self)
        requires
            old(self).wf(),
        ensures
            final(self).wf(),
            final(self)@ == (if finished(old(self)@) { advanced(old(self)@).0 } else { boosted(old(self)@) }),
    {
        if self.awaiting_advance() {
            self.advance_message();
        } else {
            self.boost_once();
        }
    }

    /// The layout of the bubble above an image of the given size.
    pub fn layout(&self, image_width: u32, image_height: u32) -> (l: BubbleLayout)
        requires
            layout_fits_u32(current_chars(self@), image_width as int, image_height as int),
        ensures
            l == state_layout(self@, image_width as int, image_height as int),
    {
        compute_layout(self.current_text(), image_width, image_height)
    }

    /// The size of the composed canvas: the image's own size while nothing
    /// is on show.
    pub fn canvas_size(&self, image_width: u32, image_height: u32) -> (r: (u32, u32))
        requires
            self@.current is Some ==> layout_fits_u32(current_chars(self@), image_width as int, image_height as int),
        ensures
            r == (if self@.current is Some {
                let l = state_layout(self@, image_width as int, image_height as int);
                (l.canvas_width, l.canvas_height)
            } else {
                (image_width, image_height)
            }),
    {
        if !self.is_visible() {
            return (image_width, image_height);
        }
        let layout = self.layout(image_width, image_height);
        (layout.canvas_width, layout.canvas_height)
    }

    /// Where the image sits on the composed canvas: at the origin while
    /// nothing is on show.
    pub fn image_offset(&self, image_width: u32, image_height: u32) -> (r: (u32, u32))
        requires
            self@.current is Some ==> layout_fits_u32(current_chars(self@), image_width as int, image_height as int),
        ensures
            r == (if self@.current is Some {
                let l = state_layout(self@, image_width as int, image_height as int);
                (l.image_x, l.image_y)
            } else {
                (0u32, 0u32)
            }),
    {
        if !self.is_visible() {
            return (0, 0);
        }
        let layout = self.layout(image_width, image_height);
        (layout.image_x, layout.image_y)
    }

    /// Whether the layout of the message on show above an image of the
    /// given size fits 32-bit coordinates (see `layout`).
    pub fn layout_fits(&self, image_width: u32, image_height: u32) -> (r: bool)
        ensures
            r == layout_fits_u32(current_chars(self@), image_width as int, image_height as int),
    {
        layout_fits(self.current_text(), image_width, image_height)
    }

    /// Whether the revealed text and the marker fit the coordinates they
    /// are drawn at (see `text_fits`).
    fn text_fits_check(&self, layout: BubbleLayout, indicator_bob: i32) -> (r: bool)
        requires
            self.wf(),
        ensures
            r == text_fits(self@, layout, indicator_bob as int),
    {
        let visible = take_chars(self.current_text(), self.visible_chars);
        if visible.as_str().is_empty() {
            return true;
        }
        let lines = match visible_lines(visible.as_str(), layout) {
            Some(lines) => lines,
            None => {
                return false;
            },
        };
        let ghost shown = lines.deep_view();
        let image_height = if layout.canvas_height >= layout.image_y { layout.canvas_height - layout.image_y } else { 0 };
        let font_scale = font_scale_for_image(image_height);
        let padding = clamp_exec(scaled_exec(image_height, 5, 100), 8, 28) as u32;
        let ox = layout.bubble_x as u64 + padding as u64;
        let oy = layout.bubble_y as u64 + padding as u64;
        assert(ox == text_origin(layout).0 && oy == text_origin(layout).1);
        assert(font_scale == text_scale(layout));
        if ox > u32::MAX as u64 {
            return false;
        }
        let nl = lines.len() as u128;
        let lh = (9 * font_scale) as u128;
        assert(nl * lh <= 0xffff_ffff_ffff_ffff * 27) by (nonlinear_arith)
            requires nl <= 0xffff_ffff_ffff_ffff, lh <= 27;
        if oy as u128 + nl * lh > u32::MAX as u128 {
            return false;
        }
        let mut i: usize = 0;
        while i < lines.len()
            invariant
                0 <= i <= lines@.len(),
                shown == lines.deep_view(),
                visible@ == current_chars(self@).take(min(self@.visible as int, current_chars(self@).len() as int)),
                visible@.len() > 0,
                Some(shown) == shown_lines(visible@, layout),
                ox == text_origin(layout).0,
                font_scale == text_scale(layout),
                1 <= font_scale <= 3,
                forall|j: int| 0 <= j < i ==> ox + #[trigger] shown[j].len() * (8 * font_scale) <= u32::MAX,
            decreases lines@.len() - i,
        {
            let n = lines[i].as_str().unicode_len();
            assert(n == shown[i as int].len());
            let cw = (8 * font_scale) as u128;
            assert(n as u128 * cw <= 0xffff_ffff_ffff_ffff * 24) by (nonlinear_arith)
                requires n <= 0xffff_ffff_ffff_ffff, cw <= 24;
            if ox as u128 + n as u128 * cw > u32::MAX as u128 {
                assert(text_origin(layout).0 + shown[i as int].len() * (8 * text_scale(layout)) > u32::MAX);
                return false;
            }
            i += 1;
        }
        if self.awaiting_advance() {
            assert(lines@.map_values(|s: String| s@) =~= shown);
            let (ix, iy) = indicator_anchor(layout, lines.as_slice(), ox as u32, oy as u32, 8 * font_scale, 9 * font_scale);
            let size: i64 = if font_scale * 4 >= 4 { (font_scale * 4) as i64 } else { 4 };
            let bob = indicator_bob as i64;
            if ix as i64 + size > i32::MAX as i64 || iy as i64 > i32::MAX as i64 || iy as i64 + bob + size > i32::MAX as i64
                || (iy as i64) + bob - size < i32::MIN as i64 {
                return false;
            }
        }
        true
    }

    /// Whether `compose` can draw the bubble over an image of the given size
    /// with the marker `indicator_bob` pixels off (see `compose_fits`); always
    /// while nothing is on show.
    pub fn can_compose(&self, image_width: u32, image_height: u32, indicator_bob: i32) -> (r: bool)
        requires
            self.wf(),
        ensures
            r == (self@.current is Some ==> compose_fits(self@, (image_width, image_height), indicator_bob as int)),
    {
        if !self.is_visible() {
            return true;
        }
        if !self.layout_fits(image_width, image_height) {
            return false;
        }
        let layout = self.layout(image_width, image_height);
        let cw = layout.canvas_width as u128;
        let ch = layout.canvas_height as u128;
        assert(cw * ch <= 0xffff_ffff * 0xffff_ffff) by (nonlinear_arith)
            requires cw <= 0xffff_ffff, ch <= 0xffff_ffff;
        if cw * ch * 4 > usize::MAX as u128 {
            return false;
        }
        if layout.bubble_x as u64 + layout.bubble_width as u64 + layout.tail_width as u64 > i32::MAX as u64
            || layout.bubble_y as u64 + layout.bubble_height as u64 > i32::MAX as u64 || layout.image_y as u64 > i32::MAX as u64 {
            return false;
        }
        self.text_fits_check(layout, indicator_bob)
    }

    /// Whether the cursor at `(x, y)` of the composed canvas, given in
    /// subpixels (units of 2^-24 pixel, see `SUBPIXELS`), is on the bubble or
    /// its tail; never while nothing is on show.
    pub fn hit_test(&self, x: i64, y: i64, image_width: u32, image_height: u32) -> (r: bool)
        requires
            self@.current is Some ==> layout_fits_u32(current_chars(self@), image_width as int, image_height as int),
            cursor_in_range(x as int),
            cursor_in_range(y as int),
        ensures
            r == (self@.current is Some && on_bubble(state_layout(self@, image_width as int, image_height as int), x as int,
                y as int)),
    {
        if !self.is_visible() {
            return false;
        }
        let layout = self.layout(image_width, image_height);
        proof {
            lemma_layout_geometry(current_chars(self@), image_width as int, image_height as int);
        }
        layout_hit(layout, x, y)
    }

    /// The image with the bubble above it, the marker (once the message is
    /// fully revealed) `indicator_bob` pixels off its resting place; `None`
    /// while nothing is on show.
    pub fn compose(&self, image: &Canvas, indicator_bob: i32) -> (r: Option<Canvas>)
        requires
            self.wf(),
            self@.current is Some ==> compose_fits(self@, canvas_dims(*image), indicator_bob as int),
        ensures
            self@.current is None ==> r is None,
            self@.current is Some ==> (r matches Some(c) && {
                let l = state_layout(self@, canvas_dims(*image).0 as int, canvas_dims(*image).1 as int);
                &&& canvas_wf(c)
                &&& canvas_dims(c) == (l.canvas_width, l.canvas_height)
                &&& canvas_pixels(c) == composed(self@, canvas_pixels(*image), canvas_dims(*image), indicator_bob as int)
            }),
    {
        if !self.is_visible() {
            return None;
        }
        let layout = self.layout(image.width(), image.height());
        let mut canvas = Canvas::from_pixel(layout.canvas_width, layout.canvas_height, (0, 0, 0, 0));
        let ghost cdims = (layout.canvas_width, layout.canvas_height);
        assert(canvas_pixels(canvas) =~= blank(cdims));
        canvas.overlay(image, layout.image_x as i64, layout.image_y as i64);
        assert(canvas_pixels(canvas) =~= overlaid(blank(cdims), cdims, canvas_pixels(*image), canvas_dims(*image),
            layout.image_x as int, layout.image_y as int));
        draw_bubble(&mut canvas, layout);
        self.draw_text(&mut canvas, layout, indicator_bob);
        Some(canvas)
    }

    fn start_message(&mut self, text: String)
        requires
            old(self).wf(),
            !is_blank(text@),
            text@.len() <= usize::MAX,
            old(self)@.current is None ==> old(self)@.queue.len() == 0,
        ensures
            final(self).wf(),
            final(self)@ == started(old(self)@, text@),
    {
        self.current_text = Some(text);
        self.visible_chars = 0;
        self.reveal_progress = 0;
        self.speed_up_active = false;
        self.indicator_phase = 0;
    }
}

} // verus!
