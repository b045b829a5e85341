//! The tiling layout: the first window of the order (the master) fills the
//! left half of the output, the others share the right half as a stack of
//! equal rows. A gap, the window buffer, is kept around the windows.

use vstd::prelude::*;

verus! {

/// A rectangle of the output: its top-left corner and its size, in
/// logical pixels.
#[derive(Debug, Clone, Copy, PartialEq, Eq, Structural)]
pub struct Rect {
    pub x: i32,
    pub y: i32,
    pub w: i32,
    pub h: i32,
}

/// `a / d` rounded toward zero, as Rust's integer division rounds.
pub open spec fn tdiv(a: int, d: int) -> int {
    if a >= 0 {
        a / d
    } else {
        -((-a) / d)
    }
}

/// The spacing of the single-precision (`f32`) values next to `n`: 1 below
/// 2^24, where every integer is an `f32`, and twice as much in each binade
/// above.
pub open spec fn f32_grain(n: nat) -> nat
    decreases n,
{
    if n < 0x100_0000 {
        1
    } else {
        2 * f32_grain(n / 2)
    }
}

/// `n` rounded to the nearest `f32`, ties to the even significand.
pub open spec fn f32_round_nat(n: nat) -> nat {
    let g = f32_grain(n);
    let q = n / g;
    let r = n % g;
    if 2 * r > g || (2 * r == g && q % 2 == 1) {
        (q + 1) * g
    } else {
        q * g
    }
}

/// The integer `n` rounded to the nearest `f32`, as `n as f32` rounds it.
pub open spec fn f32_round(n: int) -> int {
    if n >= 0 {
        f32_round_nat(n as nat) as int
    } else {
        -(f32_round_nat((-n) as nat) as int)
    }
}

/// `v` brought into the range of `i32`, as a float-to-`i32` cast does.
pub open spec fn sat_i32(v: int) -> int {
    if v < i32::MIN {
        i32::MIN as int
    } else if v > i32::MAX {
        i32::MAX as int
    } else {
        v
    }
}

/// `(b as f32 * 1.5) as i32`: `b` rounded to an `f32`; the exact product
/// 3·fl(b)/2 rounded to an `f32`, which is 3·fl(b) rounded, halved; then
/// truncated toward zero and saturated to the `i32` range.
pub open spec fn one_and_half(b: int) -> int {
    sat_i32(tdiv(f32_round(3 * f32_round(b)), 2))
}

proof fn lemma_grain(n: nat)
    ensures
        f32_grain(n) >= 1,
        n >= 0x100_0000 ==> f32_grain(n) * 0x80_0000 <= n,
        n < 0x100_0000 ==> f32_grain(n) == 1,
    decreases n,
{
    if n >= 0x100_0000 {
        lemma_grain(n / 2);
    }
}

/// Rounding to an `f32` loses less than a quarter of a value.
proof fn lemma_round_close(n: nat)
    ensures
        4 * f32_round_nat(n) >= 3 * n,
        f32_round_nat(n) <= 2 * n,
{
    lemma_grain(n);
    let g = f32_grain(n);
    let q = n / g;
    let r = n % g;
    assert(q * g + r == n && 0 <= r < g) by (nonlinear_arith)
        requires
            g >= 1,
            q == n / g,
            r == n % g,
    ;
    if n >= 0x100_0000 {
        assert(4 * (q * g) >= 3 * n) by (nonlinear_arith)
            requires
                q * g + r == n,
                r < g,
                g * 0x80_0000 <= n,
        ;
        assert((q + 1) * g <= 2 * n) by (nonlinear_arith)
            requires
                q * g + r == n,
                r >= 0,
                g * 0x80_0000 <= n,
        ;
        assert((q + 1) * g >= q * g) by (nonlinear_arith)
            requires
                g >= 1,
        ;
    } else {
        assert(q == n && r == 0) by (nonlinear_arith)
            requires
                g == 1,
                q == n / g,
                r == n % g,
        ;
    }
}

/// `f32_round(n)`, for `n` of at most 2^34 in magnitude.
fn round_to_f32(n: i64) -> (r: i64)
    requires
        -0x4_0000_0000 <= n <= 0x4_0000_0000,
    ensures
        r == f32_round(n as int),
{
    let a: i64 = if n < 0 {
        -n
    } else {
        n
    };
    let mut g: i64 = 1;
    let mut m: i64 = a;
    while m >= 0x100_0000
        invariant
            0 <= a <= 0x4_0000_0000,
            1 <= g <= 0x4_0000_0000,
            0 <= m,
            g * m <= a,
            m == a / g,
            f32_grain(a as nat) == g * f32_grain(m as nat),
        decreases m,
    {
        proof {
            vstd::arithmetic::div_mod::lemma_div_denominator(a as int, g as int, 2);
            assert(f32_grain(m as nat) == 2 * f32_grain((m / 2) as nat));
            assert(g * 2 <= a && (g * 2) * (m / 2) <= a) by (nonlinear_arith)
                requires
                    g * m <= a,
                    m >= 0x100_0000,
                    g >= 1,
            ;
            assert(g * (2 * f32_grain((m / 2) as nat)) == (g * 2) * f32_grain((m / 2) as nat))
                by (nonlinear_arith);
        }
        m = m / 2;
        g = g * 2;
    }
    proof {
        lemma_grain(m as nat);
    }
    assert(f32_grain(a as nat) == g);
    let q = a / g;
    let rem = a % g;
    assert(q * g <= a && 0 <= rem < g) by (nonlinear_arith)
        requires
            g >= 1,
            a >= 0,
            q == a / g,
            rem == a % g,
    ;
    assert((q + 1) * g <= a + g) by (nonlinear_arith)
        requires
            q * g <= a,
    ;
    let up = 2 * rem > g || (2 * rem == g && q % 2 == 1);
    let k = if up {
        (q + 1) * g
    } else {
        q * g
    };
    if n < 0 {
        -k
    } else {
        k
    }
}

/// `(b as f32 * 1.5) as i32`.
fn one_and_half_of(b: i32) -> (r: i32)
    ensures
        r == one_and_half(b as int),
{
    let y = round_to_f32(b as i64);
    proof {
        if b >= 0 {
            lemma_round_close(b as nat);
        } else {
            lemma_round_close((-b) as nat);
        }
    }
    let z = round_to_f32(3 * y);
    let t = z / 2;
    if t < i32::MIN as i64 {
        i32::MIN
    } else if t > i32::MAX as i64 {
        i32::MAX
    } else {
        t as i32
    }
}

/// With a gap that is not negative, 1.5 times the gap in single precision
/// is at least half the gap.
proof fn lemma_one_and_half_covers_half(b: int)
    requires
        0 <= b <= i32::MAX,
    ensures
        one_and_half(b) >= tdiv(b, 2),
{
    lemma_round_close(b as nat);
    let y = f32_round(b);
    lemma_round_close((3 * y) as nat);
}

/// The height of a row of the stack when `count` windows are tiled.
pub open spec fn stack_row(screen: Rect, count: int) -> int {
    tdiv(screen.h as int, count - 1)
}

/// Where window `num` of `count` goes on `screen` with the buffer `b`,
/// as `(x, y, w, h)`.
pub open spec fn tile(screen: Rect, count: int, num: int, b: int) -> (int, int, int, int) {
    let sx = screen.x as int;
    let sy = screen.y as int;
    let sw = screen.w as int;
    let sh = screen.h as int;
    if count == 1 {
        (sx + tdiv(b, 2), sy + tdiv(b, 2), sw - b, sh - b)
    } else if num == 0 {
        (sx + tdiv(b, 2), sy + tdiv(b, 2), tdiv(sw, 2) - one_and_half(b), sh - b)
    } else {
        let q = stack_row(screen, count);
        (sx + tdiv(sw, 2), sy + (q * (num - 1) + tdiv(b, 2)), tdiv(sw, 2) - tdiv(b, 2), q - b)
    }
}

pub open spec fn in_i32(v: int) -> bool {
    i32::MIN <= v <= i32::MAX
}

/// Each value computed on the way to `tile(screen, count, num, b)` fits in
/// an `i32`.
pub open spec fn tile_fits(screen: Rect, count: int, num: int, b: int) -> bool {
    let t = tile(screen, count, num, b);
    let q = stack_row(screen, count);
    &&& in_i32(t.0) && in_i32(t.1) && in_i32(t.2) && in_i32(t.3)
    &&& (count != 1 && num != 0 ==> in_i32(q * (num - 1)) && in_i32(q * (num - 1) + tdiv(b, 2)))
}

pub open spec fn rect_of(t: (int, int, int, int)) -> Rect {
    Rect { x: t.0 as i32, y: t.1 as i32, w: t.2 as i32, h: t.3 as i32 }
}

/// Where window `win_num` of `win_count` goes on `screen`, with the gap
/// `line_buffer` kept around the windows.
pub fn tile_window(screen: Rect, win_count: usize, win_num: usize, line_buffer: i32) -> (r: Rect)
    requires
        1 <= win_count <= i32::MAX,
        win_num < win_count,
        tile_fits(screen, win_count as int, win_num as int, line_buffer as int),
    ensures
        r == rect_of(tile(screen, win_count as int, win_num as int, line_buffer as int)),
{
    let b = line_buffer;
    if win_count == 1 {
        Rect { x: screen.x + b / 2, y: screen.y + b / 2, w: screen.w - b, h: screen.h - b }
    } else if win_num == 0 {
        let wide = one_and_half_of(b);
        Rect {
            x: screen.x + b / 2,
            y: screen.y + b / 2,
            w: screen.w / 2 - wide,
            h: screen.h - b,
        }
    } else {
        let rows = win_count as i32 - 1;
        let q = screen.h / rows;
        let k = (win_num - 1) as i32;
        let off = q * k;
        let down = off + b / 2;
        Rect { x: screen.x + screen.w / 2, y: screen.y + down, w: screen.w / 2 - b / 2, h: q - b }
    }
}

/// Where each of `win_count` windows goes, in the window order; `None`
/// when some value on the way does not fit in an `i32`.
pub fn retile_layout(screen: Rect, win_count: usize, line_buffer: i32) -> (r: Option<Vec<Rect>>)
    requires
        win_count <= i32::MAX,
    ensures
        r is Some <==> forall|i: int|
            0 <= i < win_count ==> #[trigger] tile_fits(
                screen,
                win_count as int,
                i,
                line_buffer as int,
            ),
        r matches Some(v) ==> v.len() == win_count && forall|i: int|
            0 <= i < win_count ==> #[trigger] v@[i] == rect_of(
                tile(screen, win_count as int, i, line_buffer as int),
            ),
{
    let mut v: Vec<Rect> = Vec::new();
    let mut i: usize = 0;
    while i < win_count
        invariant
            win_count <= i32::MAX,
            0 <= i <= win_count,
            v.len() == i,
            forall|j: int|
                0 <= j < i ==> #[trigger] tile_fits(screen, win_count as int, j, line_buffer as int),
            forall|j: int|
                0 <= j < i ==> #[trigger] v@[j] == rect_of(
                    tile(screen, win_count as int, j, line_buffer as int),
                ),
        decreases win_count - i,
    {
        if !fits(screen, win_count, i, line_buffer) {
            return None;
        }
        v.push(tile_window(screen, win_count, i, line_buffer));
        i = i + 1;
    }
    Some(v)
}

/// Whether `tile_fits` holds.
fn fits(screen: Rect, win_count: usize, win_num: usize, line_buffer: i32) -> (r: bool)
    requires
        1 <= win_count <= i32::MAX,
        win_num < win_count,
    ensures
        r == tile_fits(screen, win_count as int, win_num as int, line_buffer as int),
{
    let b = line_buffer as i64;
    let sx = screen.x as i64;
    let sy = screen.y as i64;
    let sw = screen.w as i64;
    let sh = screen.h as i64;
    let lo = i32::MIN as i64;
    let hi = i32::MAX as i64;
    let half_b = b / 2;
    if win_count == 1 {
        let (x, y, w, h) = (sx + half_b, sy + half_b, sw - b, sh - b);
        lo <= x && x <= hi && lo <= y && y <= hi && lo <= w && w <= hi && lo <= h && h <= hi
    } else if win_num == 0 {
        let wide = one_and_half_of(line_buffer) as i64;
        let (x, y, w, h) = (sx + half_b, sy + half_b, sw / 2 - wide, sh - b);
        lo <= x && x <= hi && lo <= y && y <= hi && lo <= w && w <= hi && lo <= h && h <= hi
    } else {
        let q = sh / (win_count as i64 - 1);
        let k = (win_num - 1) as i64;
        assert(-2147483648 <= q <= 2147483647);
        assert(0 <= k <= 2147483647);
        assert(-4611686018427387904 <= q * k <= 4611686018427387904) by (nonlinear_arith)
            requires
                -2147483648 <= q <= 2147483647,
                0 <= k <= 2147483647,
        ;
        let off = q * k;
        let down = off + half_b;
        let (x, y, w, h) = (sx + sw / 2, sy + down, sw / 2 - half_b, q - b);
        lo <= x && x <= hi && lo <= y && y <= hi && lo <= w && w <= hi && lo <= h && h <= hi
            && lo <= off && off <= hi && lo <= down && down <= hi
    }
}


/// A tile lies on the screen: it starts at or after the screen's top-left
/// corner and ends at or before its bottom-right corner.
pub open spec fn within(t: (int, int, int, int), screen: Rect) -> bool {
    &&& t.0 >= screen.x
    &&& t.1 >= screen.y
    &&& t.0 + t.2 <= screen.x + screen.w
    &&& t.1 + t.3 <= screen.y + screen.h
}

/// Two tiles share a point (as half-open rectangles; one without area
/// shares none).
pub open spec fn overlap(a: (int, int, int, int), c: (int, int, int, int)) -> bool {
    &&& a.0 < c.0 + c.2
    &&& c.0 < a.0 + a.2
    &&& a.1 < c.1 + c.3
    &&& c.1 < a.1 + a.3
}

proof fn lemma_row_bounds(sh: int, rows: int, k: int)
    by (nonlinear_arith)
    requires
        sh >= 0,
        rows >= 1,
        0 <= k < rows,
    ensures
        0 <= sh / rows,
        (sh / rows) * k + sh / rows <= sh,
        (sh / rows) * k + sh / rows == (sh / rows) * (k + 1),
{
    assert((sh / rows) * rows <= sh);
    assert((sh / rows) * (k + 1) <= (sh / rows) * rows);
}

proof fn lemma_row_order(q: int, i: int, j: int)
    by (nonlinear_arith)
    requires
        q >= 0,
        0 <= i < j,
    ensures
        q * i + q <= q * j,
{
    assert(q * (i + 1) <= q * j);
}

/// With a gap that is not negative, every tiled window lies on the output.
pub proof fn lemma_tile_within_screen(screen: Rect, count: int, num: int, b: int)
    requires
        0 <= b <= i32::MAX,
        screen.w >= 0,
        screen.h >= 0,
        0 <= num < count,
    ensures
        within(tile(screen, count, num, b), screen),
{
    if count != 1 && num != 0 {
        lemma_row_bounds(screen.h as int, count - 1, num - 1);
    }
    if count != 1 && num == 0 {
        lemma_one_and_half_covers_half(b);
    }
}

/// With a gap that is not negative, no two tiled windows overlap.
pub proof fn lemma_tiles_disjoint(screen: Rect, count: int, i: int, j: int, b: int)
    requires
        0 <= b <= i32::MAX,
        screen.w >= 0,
        screen.h >= 0,
        0 <= i < count,
        0 <= j < count,
        i != j,
    ensures
        !overlap(tile(screen, count, i, b), tile(screen, count, j, b)),
{
    let lo = if i < j {
        i
    } else {
        j
    };
    let hi = if i < j {
        j
    } else {
        i
    };
    if count != 1 {
        lemma_one_and_half_covers_half(b);
    }
    if lo > 0 {
        let q = stack_row(screen, count);
        lemma_row_bounds(screen.h as int, count - 1, lo - 1);
        lemma_row_order(q, lo - 1, hi - 1);
    }
}


proof fn lemma_row_step(q: int, k: int)
    by (nonlinear_arith)
    ensures
        q * (k + 1) == q * k + q,
{
}

/// Stack windows lie one under the other in rows of equal height, each
/// starting one buffer below where the one above ends.
pub proof fn lemma_stack_rows_adjacent(screen: Rect, count: int, num: int, b: int)
    requires
        1 <= num,
        num + 1 < count,
    ensures
        tile(screen, count, num + 1, b).0 == tile(screen, count, num, b).0,
        tile(screen, count, num + 1, b).2 == tile(screen, count, num, b).2,
        tile(screen, count, num + 1, b).3 == tile(screen, count, num, b).3,
        tile(screen, count, num + 1, b).1 == tile(screen, count, num, b).1 + tile(
            screen,
            count,
            num,
            b,
        ).3 + b,
{
    lemma_row_step(stack_row(screen, count), num - 1);
}

/// The stack fills the right half of the output: the first row starts half
/// a buffer below the top, the last ends the rest of a buffer above the
/// bottom (give or take the remainder of dividing the height among the
/// rows), and every row reaches from the middle to half a buffer (give or
/// take one pixel of rounding) from the right edge.
pub proof fn lemma_stack_fills_right_half(screen: Rect, count: int, num: int, b: int)
    requires
        count >= 2,
        1 <= num < count,
        screen.w >= 0,
        screen.h >= 0,
    ensures
        tile(screen, count, 1, b).1 == screen.y + tdiv(b, 2),
        ({
            let last = tile(screen, count, count - 1, b);
            let gap = screen.y + screen.h - (last.1 + last.3) - (b - tdiv(b, 2));
            0 <= gap < count - 1
        }),
        tile(screen, count, num, b).0 == screen.x + tdiv(screen.w as int, 2),
        ({
            let t = tile(screen, count, num, b);
            let gap = screen.x + screen.w - (t.0 + t.2) - tdiv(b, 2);
            0 <= gap <= 1
        }),
{
    let q = stack_row(screen, count);
    let sh = screen.h as int;
    let rows = count - 1;
    assert(q * rows <= sh && sh - q * rows < rows) by (nonlinear_arith)
        requires
            q == sh / rows,
            sh >= 0,
            rows >= 1,
    ;
    lemma_row_step(q, rows - 1);
}

/// The master window keeps half a buffer from the top, left and bottom of
/// the output, and ends where the stack starts less the rest of 1.5 times
/// the buffer; a single window keeps half a buffer from every edge (the
/// rest of a buffer from the right and bottom).
pub proof fn lemma_master_and_single(screen: Rect, count: int, b: int)
    requires
        count >= 1,
    ensures
        ({
            let t = tile(screen, count, 0, b);
            &&& t.0 == screen.x + tdiv(b, 2)
            &&& t.1 == screen.y + tdiv(b, 2)
            &&& t.1 + t.3 == screen.y + screen.h - (b - tdiv(b, 2))
        }),
        count == 1 ==> ({
            let t = tile(screen, count, 0, b);
            t.0 + t.2 == screen.x + screen.w - (b - tdiv(b, 2))
        }),
        count >= 2 ==> ({
            let t = tile(screen, count, 0, b);
            t.0 + t.2 + (one_and_half(b) - tdiv(b, 2)) == tile(screen, count, 1, b).0
        }),
{
}


/// Below 2^22 in magnitude, single precision loses nothing: the master
/// gap is 1.5 times the buffer, rounded toward zero.
pub proof fn lemma_one_and_half_exact(b: int)
    requires
        -0x40_0000 <= b <= 0x40_0000,
    ensures
        one_and_half(b) == tdiv(3 * b, 2),
{
    lemma_grain(if b >= 0 { b as nat } else { (-b) as nat });
    lemma_grain(if b >= 0 { (3 * b) as nat } else { (-3 * b) as nat });
    assert(f32_round(b) == b);
    assert(f32_round(3 * b) == 3 * b);
}

} // verus!
