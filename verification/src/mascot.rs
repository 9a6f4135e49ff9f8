use vstd::prelude::*;

use crate::pixel::{lemma_rgba_byte, lemma_row_major};

verus! {

/// The mascot's personality modes, switched in turn by the user.
#[derive(Debug, Clone, Copy, PartialEq, Eq, Structural)]
pub enum MascotMode {
    Cute,
    Sexy,
    /// For deep work: minimal animations.
    Focus,
}

/// What the mascot is currently doing.
#[derive(Debug, Clone, Copy, PartialEq, Eq, Structural)]
pub enum MascotState {
    Idle,
    Walking,
    Running,
    Sitting,
    Waving,
}

/// The mode that follows `m` in the cycle Cute, Sexy, Focus, Cute, ...
pub open spec fn next_mode(m: MascotMode) -> MascotMode {
    match m {
        MascotMode::Cute => MascotMode::Sexy,
        MascotMode::Sexy => MascotMode::Focus,
        MascotMode::Focus => MascotMode::Cute,
    }
}

/// Whether a state counts as rest: entering it keeps the idle timer running.
pub open spec fn is_resting(s: MascotState) -> bool {
    s == MascotState::Sitting || s == MascotState::Idle
}

/// Whether moving from `from` to `to` restarts the idle timer: only a real
/// change of state into an active (non-resting) state does.
pub open spec fn resets_idle_timer(from: MascotState, to: MascotState) -> bool {
    from != to && !is_resting(to)
}

/// The float-free part of the mascot: its mode, its state and the size of
/// the frame it draws itself into.
pub struct Mascot {
    pub mode: MascotMode,
    pub state: MascotState,
    pub width: u32,
    pub height: u32,
}

impl Mascot {
    /// A new mascot for a `width` x `height` frame: cute and idle.
    pub fn new(width: u32, height: u32) -> (m: Self)
        ensures
            m.mode == MascotMode::Cute,
            m.state == MascotState::Idle,
            m.width == width,
            m.height == height,
    {
        Mascot { mode: MascotMode::Cute, state: MascotState::Idle, width, height }
    }

    /// Switches to the next personality mode.
    pub fn cycle_mode(&mut self)
        ensures
            final(self).mode == next_mode(old(self).mode),
            final(self).state == old(self).state,
            final(self).width == old(self).width,
            final(self).height == old(self).height,
    {
        self.mode = match self.mode {
            MascotMode::Cute => MascotMode::Sexy,
            MascotMode::Sexy => MascotMode::Focus,
            MascotMode::Focus => MascotMode::Cute,
        };
    }

    /// Moves to `new_state`. Returns whether the idle timer has to restart,
    /// which is the case exactly when the state changes into an active one.
    pub fn transition(&mut self, new_state: MascotState) -> (reset_idle: bool)
        ensures
            final(self).state == new_state,
            final(self).mode == old(self).mode,
            final(self).width == old(self).width,
            final(self).height == old(self).height,
            reset_idle == resets_idle_timer(old(self).state, new_state),
    {
        let mut reset_idle = false;
        if self.state != new_state {
            if new_state != MascotState::Sitting && new_state != MascotState::Idle {
                reset_idle = true;
            }
            self.state = new_state;
        }
        reset_idle
    }

    /// Draws the placeholder mascot into the RGBA `frame` (row-major, four
    /// bytes a pixel, `width` pixels a row): every whole pixel is cleared to
    /// transparent, the body square (81 pixels a side, centred) takes the
    /// mode's colour and the dot in its middle the state's colour.
    pub fn draw(&self, frame: &mut [u8])
        requires
            draw_fits(self.width, self.height, old(frame)@.len() as int),
        ensures
            final(frame)@.len() == old(frame)@.len(),
            forall|k: int|
                0 <= k < old(frame)@.len() ==> final(frame)@[k] == drawn_byte(*self, old(frame)@, k),
    {
        let ghost old_frame = frame@;
        let len = frame.len();
        let whole = len / 4 * 4;
        let mut i: usize = 0;
        while i < whole
            invariant
                whole == whole_pixel_bytes(len as int),
                whole <= len,
                i <= whole,
                frame@.len() == len,
                len == old_frame.len(),
                forall|k: int| 0 <= k < i ==> frame@[k] == 0,
                forall|k: int| i <= k < len ==> frame@[k] == old_frame[k],
            decreases whole - i,
        {
            frame[i] = 0;
            i = i + 1;
        }
        let ghost cleared = frame@;
        if self.width <= 0x7fff_ffff && self.height <= 0x7fff_ffff {
            fill_shape(frame, self.width, self.height, BODY_HALF_SIDE, true, mode_color(self.mode));
            fill_shape(frame, self.width, self.height, DOT_RADIUS, false, state_color(self.state));
            proof {
                let w = self.width as int;
                let h = self.height as int;
                assert forall|k: int| 0 <= k < len implies frame@[k] == drawn_byte(*self, old_frame, k) by {
                    if w == 0 {
                        assert(w * h == 0);
                    }
                }
            }
        }
    }
}

/// Half the side of the placeholder body, a square centred in the frame.
pub const BODY_HALF_SIDE: i32 = 40;

/// Radius of the state indicator dot in the middle of the body.
pub const DOT_RADIUS: i32 = 8;

/// The body colour of each mode, as RGBA.
pub open spec fn mode_rgba(m: MascotMode) -> Seq<u8> {
    match m {
        MascotMode::Cute => seq![255u8, 182u8, 193u8, 220u8],
        MascotMode::Sexy => seq![180u8, 80u8, 220u8, 220u8],
        MascotMode::Focus => seq![80u8, 160u8, 255u8, 220u8],
    }
}

/// The indicator dot colour of each state, as RGBA.
pub open spec fn state_rgba(s: MascotState) -> Seq<u8> {
    match s {
        MascotState::Idle => seq![255u8, 255u8, 255u8, 200u8],
        MascotState::Walking => seq![100u8, 255u8, 100u8, 200u8],
        MascotState::Running => seq![255u8, 200u8, 50u8, 200u8],
        MascotState::Sitting => seq![100u8, 200u8, 255u8, 200u8],
        MascotState::Waving => seq![255u8, 100u8, 100u8, 200u8],
    }
}

/// Whether pixel `(x, y)` lies in the disc of radius `r` centred on the
/// middle `(w / 2, h / 2)` of a `w` x `h` frame.
pub open spec fn in_disc(x: int, y: int, w: int, h: int, r: int) -> bool {
    let dx = x - w / 2;
    let dy = y - h / 2;
    dx * dx + dy * dy <= r * r
}

/// Whether pixel `(x, y)` lies in the square of half side `r` centred on
/// the middle `(w / 2, h / 2)` of a `w` x `h` frame.
pub open spec fn in_square(x: int, y: int, w: int, h: int, r: int) -> bool {
    let dx = x - w / 2;
    let dy = y - h / 2;
    -r <= dx <= r && -r <= dy <= r
}

/// Whether pixel `(x, y)` lies in the centred square (`square`) or disc of
/// size `r`.
pub open spec fn in_shape(x: int, y: int, w: int, h: int, r: int, square: bool) -> bool {
    if square {
        in_square(x, y, w, h, r)
    } else {
        in_disc(x, y, w, h, r)
    }
}

/// Whether the shapes are drawn at all: the frame's sides must be valid
/// `i32` screen coordinates, else the drawing loops have nothing to run over.
pub open spec fn shapes_drawn(w: u32, h: u32) -> bool {
    w <= i32::MAX && h <= i32::MAX
}

/// The number of bytes of a buffer of `len` bytes that form whole pixels.
pub open spec fn whole_pixel_bytes(len: int) -> int {
    len / 4 * 4
}

/// Byte `k` of a buffer whose old contents are `old` after the centred shape
/// of size `r` has been filled with `color` (pixel `p` of the buffer is
/// column `p % w` of row `p / w`), counting only the first `lim` pixels.
pub open spec fn shape_filled_byte(
    old: Seq<u8>,
    w: int,
    h: int,
    r: int,
    square: bool,
    color: Seq<u8>,
    lim: int,
    k: int,
) -> u8 {
    let p = k / 4;
    if k < whole_pixel_bytes(old.len() as int) && p < lim && in_shape(p % w, p / w, w, h, r, square) {
        color[k % 4]
    } else {
        old[k]
    }
}

/// Byte `k` of the frame after `m` has drawn itself into a frame whose old
/// contents were `old`: whole pixels are cleared to transparent, then the
/// body square gets the mode's colour and the dot disc the state's colour;
/// trailing bytes that form no whole pixel are left alone.
pub open spec fn drawn_byte(m: Mascot, old: Seq<u8>, k: int) -> u8 {
    let w = m.width as int;
    let h = m.height as int;
    let p = k / 4;
    if k >= whole_pixel_bytes(old.len() as int) {
        old[k]
    } else if shapes_drawn(m.width, m.height) && 0 < w && p < w * h {
        if in_disc(p % w, p / w, w, h, DOT_RADIUS as int) {
            state_rgba(m.state)[k % 4]
        } else if in_square(p % w, p / w, w, h, BODY_HALF_SIDE as int) {
            mode_rgba(m.mode)[k % 4]
        } else {
            0
        }
    } else {
        0
    }
}

/// The inputs on which drawing stays within the `i32` arithmetic of the
/// shapes and within the frame: the squared distance from the centre to a
/// corner fits an `i32` (the dot's test squares that distance for every
/// pixel), and every body pixel lies inside the buffer.
pub open spec fn draw_fits(w: u32, h: u32, len: int) -> bool {
    shapes_drawn(w, h) && 0 < w && 0 < h ==> {
        &&& (w / 2) * (w / 2) + (h / 2) * (h / 2) <= i32::MAX
        &&& forall|x: int, y: int|
            0 <= x < w && 0 <= y < h && #[trigger] in_square(x, y, w as int, h as int, BODY_HALF_SIDE as int)
                ==> (y * w + x) * 4 + 4 <= len
    }
}

fn mode_color(m: MascotMode) -> (c: [u8; 4])
    ensures
        c@ == mode_rgba(m),
{
    match m {
        MascotMode::Cute => [255, 182, 193, 220],
        MascotMode::Sexy => [180, 80, 220, 220],
        MascotMode::Focus => [80, 160, 255, 220],
    }
}

fn state_color(s: MascotState) -> (c: [u8; 4])
    ensures
        c@ == state_rgba(s),
{
    match s {
        MascotState::Idle => [255, 255, 255, 200],
        MascotState::Walking => [100, 255, 100, 200],
        MascotState::Running => [255, 200, 50, 200],
        MascotState::Sitting => [100, 200, 255, 200],
        MascotState::Waving => [255, 100, 100, 200],
    }
}

/// One step of filling a shape: handling pixel `(x, y)`, the next in
/// row-major order, paints its four bytes if it lies in the shape and
/// extends the filled prefix by that pixel.
proof fn lemma_shape_step(
    old: Seq<u8>,
    w: int,
    h: int,
    r: int,
    square: bool,
    color: Seq<u8>,
    before: Seq<u8>,
    after: Seq<u8>,
    x: int,
    y: int,
)
    requires
        0 <= x < w,
        0 <= y,
        before.len() == old.len(),
        after.len() == old.len(),
        forall|k: int|
            0 <= k < old.len() ==> before[k] == shape_filled_byte(old, w, h, r, square, color, y * w + x, k),
        in_shape(x, y, w, h, r, square) ==> {
            &&& 4 * (y * w + x) + 4 <= old.len()
            &&& forall|k: int|
                0 <= k < old.len() ==> after[k] == if 4 * (y * w + x) <= k < 4 * (y * w + x) + 4 {
                    color[k - 4 * (y * w + x)]
                } else {
                    before[k]
                }
        },
        !in_shape(x, y, w, h, r, square) ==> after == before,
    ensures
        forall|k: int|
            0 <= k < old.len() ==> after[k] == shape_filled_byte(old, w, h, r, square, color, y * w + x + 1, k),
{
    let lim = y * w + x;
    lemma_row_major(x, y, w);
    assert(0 <= lim) by (nonlinear_arith)
        requires
            lim == y * w + x,
            0 <= x,
            0 <= y,
            0 <= w,
    ;
    assert forall|k: int| 0 <= k < old.len() implies after[k] == shape_filled_byte(
        old,
        w,
        h,
        r,
        square,
        color,
        lim + 1,
        k,
    ) by {
        if in_shape(x, y, w, h, r, square) && 4 * lim <= k < 4 * lim + 4 {
            lemma_rgba_byte(lim, k - 4 * lim);
        }
    }
}

/// Fills the square of half side `r` (`square`) or the disc of radius `r`
/// centred in the `w` x `h` frame with `color`.
fn fill_shape(frame: &mut [u8], w: u32, h: u32, r: i32, square: bool, color: [u8; 4])
    requires
        shapes_drawn(w, h),
        0 <= r <= BODY_HALF_SIDE,
        draw_fits(w, h, old(frame)@.len() as int),
    ensures
        final(frame)@.len() == old(frame)@.len(),
        forall|k: int|
            0 <= k < old(frame)@.len() ==> final(frame)@[k] == shape_filled_byte(
                old(frame)@,
                w as int,
                h as int,
                r as int,
                square,
                color@,
                w * h,
                k,
            ),
{
    let ghost old_frame = frame@;
    let flen = frame.len();
    let ghost len = flen as int;
    let wi = w as i32;
    let hi = h as i32;
    let cx = (w / 2) as i32;
    let cy = (h / 2) as i32;
    let mut y: i32 = 0;
    while y < hi
        invariant
            0 <= y <= hi,
            hi == h,
            wi == w,
            cx == w / 2,
            cy == h / 2,
            shapes_drawn(w, h),
            0 <= r <= BODY_HALF_SIDE,
            draw_fits(w, h, len),
            frame@.len() == len,
            len == old_frame.len(),
            len == flen,
            forall|k: int|
                0 <= k < len ==> frame@[k] == shape_filled_byte(
                    old_frame,
                    w as int,
                    h as int,
                    r as int,
                    square,
                    color@,
                    y * w,
                    k,
                ),
        decreases hi - y,
    {
        let mut x: i32 = 0;
        while x < wi
            invariant
                0 <= x <= wi,
                0 <= y < hi,
                hi == h,
                wi == w,
                cx == w / 2,
                cy == h / 2,
                shapes_drawn(w, h),
                0 <= r <= BODY_HALF_SIDE,
                draw_fits(w, h, len),
                frame@.len() == len,
                len == old_frame.len(),
                len == flen,
                forall|k: int|
                    0 <= k < len ==> frame@[k] == shape_filled_byte(
                        old_frame,
                        w as int,
                        h as int,
                        r as int,
                        square,
                        color@,
                        y * w + x,
                        k,
                    ),
            decreases wi - x,
        {
            let dx = x - cx;
            let dy = y - cy;
            assert(0 < w && 0 < h);
            assert(cx * cx + cy * cy <= i32::MAX);
            assert(0 <= dx * dx <= cx * cx && 0 <= dy * dy <= cy * cy && 0 <= r * r <= 1600)
                by (nonlinear_arith)
                requires
                    -cx <= dx <= cx,
                    -cy <= dy <= cy,
                    0 <= r <= 40,
            ;
            let ghost before = frame@;
            let inside = if square {
                -r <= dx && dx <= r && -r <= dy && dy <= r
            } else {
                dx * dx + dy * dy <= r * r
            };
            if inside {
                assert(-40 <= dx <= 40 && -40 <= dy <= 40) by (nonlinear_arith)
                    requires
                        square ==> -r <= dx <= r && -r <= dy <= r,
                        !square ==> dx * dx + dy * dy <= r * r,
                        0 <= r <= 40,
                        0 <= r * r <= 1600,
                ;
                assert(in_square(x as int, y as int, w as int, h as int, BODY_HALF_SIDE as int));
                let i = (y as usize * w as usize + x as usize) * 4;
                assert(i == 4 * (y * w + x));
                frame[i] = color[0];
                frame[i + 1] = color[1];
                frame[i + 2] = color[2];
                frame[i + 3] = color[3];
            }
            proof {
                lemma_shape_step(
                    old_frame,
                    w as int,
                    h as int,
                    r as int,
                    square,
                    color@,
                    before,
                    frame@,
                    x as int,
                    y as int,
                );
            }
            x = x + 1;
        }
        assert(y * w + w == (y + 1) * w) by (nonlinear_arith);
        y = y + 1;
    }
    assert(h * w == w * h) by (nonlinear_arith);
}

/// Drawing does not depend on what the frame held before, but for the
/// trailing bytes that form no whole pixel, which it leaves alone.
pub proof fn lemma_draw_forgets_old_frame(m: Mascot, a: Seq<u8>, b: Seq<u8>)
    requires
        a.len() == b.len(),
    ensures
        forall|k: int|
            0 <= k < whole_pixel_bytes(a.len() as int) ==> #[trigger] drawn_byte(m, a, k) == drawn_byte(m, b, k),
{
}

/// The body is a square: every pixel within 40 of the centre in both
/// directions comes out opaque (its alpha byte is not 0), the corners of the
/// square included.
pub proof fn lemma_body_is_square(m: Mascot, old: Seq<u8>)
    ensures
        forall|k: int|
            0 <= k < whole_pixel_bytes(old.len() as int) && k % 4 == 3 && shapes_drawn(m.width, m.height)
                && 0 < m.width && k / 4 < m.width * m.height && in_square(
                (k / 4) % (m.width as int),
                (k / 4) / (m.width as int),
                m.width as int,
                m.height as int,
                BODY_HALF_SIDE as int,
            ) ==> #[trigger] drawn_byte(m, old, k) != 0,
{
}

/// The mode shows in the body: two mascots that differ only in mode draw
/// the same bytes everywhere except in the body square outside the state dot,
/// and they do differ there, at the pixel 20 to the right of the centre.
pub proof fn lemma_draw_shows_mode(a: Mascot, b: Mascot, old_a: Seq<u8>, old_b: Seq<u8>)
    requires
        a.state == b.state,
        a.width == b.width,
        a.height == b.height,
        old_a.len() == old_b.len(),
    ensures
        forall|k: int|
            0 <= k < whole_pixel_bytes(old_a.len() as int) && #[trigger] drawn_byte(a, old_a, k)
                != drawn_byte(b, old_b, k) ==> {
                let w = a.width as int;
                let h = a.height as int;
                let p = k / 4;
                &&& shapes_drawn(a.width, a.height)
                &&& 0 < w
                &&& p < w * h
                &&& in_square(p % w, p / w, w, h, BODY_HALF_SIDE as int)
                &&& !in_disc(p % w, p / w, w, h, DOT_RADIUS as int)
            },
        ({
            let w = a.width as int;
            let h = a.height as int;
            let k = 4 * ((h / 2) * w + w / 2 + 20);
            a.mode != b.mode && shapes_drawn(a.width, a.height) && w / 2 + 20 < w && 0 < h && k + 4
                <= whole_pixel_bytes(old_a.len() as int) ==> drawn_byte(a, old_a, k) != drawn_byte(b, old_b, k)
        }),
{
    let w = a.width as int;
    let h = a.height as int;
    let x = w / 2 + 20;
    let y = h / 2;
    let p = y * w + x;
    if a.mode != b.mode && shapes_drawn(a.width, a.height) && x < w && 0 < h && 4 * p + 4
        <= whole_pixel_bytes(old_a.len() as int) {
        lemma_row_major(x, y, w);
        assert(0 <= p) by (nonlinear_arith)
            requires
                p == y * w + x,
                0 <= y,
                0 <= x,
                0 <= w,
        ;
        lemma_rgba_byte(p, 0);
        assert((y + 1) * w <= h * w) by (nonlinear_arith)
            requires
                y + 1 <= h,
                0 <= w,
        ;
        assert(y * w + w == (y + 1) * w) by (nonlinear_arith);
        let dx = x - w / 2;
        let dy = y - h / 2;
        assert(dx * dx + dy * dy == 400) by (nonlinear_arith)
            requires
                dx == 20,
                dy == 0,
        ;
        assert(in_square(x, y, w, h, BODY_HALF_SIDE as int));
        assert(!in_disc(x, y, w, h, DOT_RADIUS as int));
    }
}

/// Drawing twice leaves the frame as drawing once does.
pub proof fn lemma_draw_idempotent(m: Mascot, old: Seq<u8>)
    ensures
        ({
            let once = Seq::new(old.len(), |k: int| drawn_byte(m, old, k));
            forall|k: int| 0 <= k < old.len() ==> #[trigger] drawn_byte(m, once, k) == once[k]
        }),
{
}

/// Cycling the mode three times gives back the mode one started from.
pub proof fn lemma_mode_cycle_period(m: MascotMode)
    ensures
        next_mode(next_mode(next_mode(m))) == m,
        next_mode(m) != m,
        next_mode(next_mode(m)) != m,
{
}

/// The idle timer restarts exactly when the state really changes and the
/// new state is neither idling nor sitting, whatever the state before.
pub proof fn lemma_idle_timer_rule(from: MascotState, to: MascotState)
    ensures
        resets_idle_timer(from, to) <==> (from != to && to != MascotState::Idle && to != MascotState::Sitting),
{
}

/// The modes come in the order Cute, Sexy, Focus and back to Cute.
pub proof fn lemma_mode_order()
    ensures
        next_mode(MascotMode::Cute) == MascotMode::Sexy,
        next_mode(MascotMode::Sexy) == MascotMode::Focus,
        next_mode(MascotMode::Focus) == MascotMode::Cute,
{
}

/// What pixel `(x, y)` of the frame shows after drawing, in terms of its
/// offset `(dx, dy)` from the centre `(width / 2, height / 2)`: the state's
/// colour where `dx * dx + dy * dy <= 64` (the dot), else the mode's colour
/// where `|dx| <= 40` and `|dy| <= 40` (the body square), else transparent;
/// a frame whose sides exceed `i32` screen coordinates is only cleared.
pub proof fn lemma_draw_pixel(m: Mascot, old: Seq<u8>, x: int, y: int, c: int)
    requires
        0 <= x < m.width,
        0 <= y < m.height,
        0 <= c < 4,
        (y * m.width + x) * 4 + 4 <= old.len(),
    ensures
        ({
            let w = m.width as int;
            let h = m.height as int;
            let dx = x - w / 2;
            let dy = y - h / 2;
            drawn_byte(m, old, (y * w + x) * 4 + c) == if !(m.width <= i32::MAX && m.height <= i32::MAX) {
                0u8
            } else if dx * dx + dy * dy <= 64 {
                state_rgba(m.state)[c]
            } else if -40 <= dx <= 40 && -40 <= dy <= 40 {
                mode_rgba(m.mode)[c]
            } else {
                0u8
            }
        }),
{
    let w = m.width as int;
    let h = m.height as int;
    let p = y * w + x;
    assert(0 <= p) by (nonlinear_arith)
        requires
            p == y * w + x,
            0 <= x,
            0 <= y,
            0 <= w,
    ;
    assert((y + 1) * w <= h * w) by (nonlinear_arith)
        requires
            y + 1 <= h,
            0 <= w,
    ;
    assert(y * w + w == (y + 1) * w) by (nonlinear_arith);
    assert(h * w == w * h) by (nonlinear_arith);
    lemma_rgba_byte(p, c);
    lemma_row_major(x, y, w);
    assert(4 * p + c == p * 4 + c);
}

/// What drawing leaves beyond the `width * height` pixels of the frame: the
/// rest of the whole pixels of the buffer cleared to 0, and the trailing
/// bytes that form no whole pixel (the last `len % 4`) untouched.
pub proof fn lemma_draw_rest(m: Mascot, old: Seq<u8>, k: int)
    requires
        0 <= k < old.len(),
        k >= m.width * m.height * 4,
    ensures
        k < old.len() - old.len() % 4 ==> drawn_byte(m, old, k) == 0,
        k >= old.len() - old.len() % 4 ==> drawn_byte(m, old, k) == old[k],
{
    assert(k / 4 >= m.width * m.height);
}

/// Moving to the state one is already in never restarts the idle timer, and
/// neither does coming to rest.
pub proof fn lemma_idle_timer_kept(from: MascotState, to: MascotState)
    ensures
        !resets_idle_timer(from, from),
        is_resting(to) ==> !resets_idle_timer(from, to),
{
}

} // verus!
