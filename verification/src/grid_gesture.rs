//! Editor-local grid gesture state and rasterisation rules, shared by the
//! desktop and XR paint tools once their rays have been resolved to cells.
use vstd::prelude::*;
use crate::grid::{CapturedGrid, GridAddress, GridSystem, in_domain};
use crate::ids::ComponentId;

verus! {

/// The cell address `(u, v)`.
pub open spec fn ga(u: int, v: int) -> GridAddress {
    GridAddress { u: u as i32, v: v as i32 }
}

/// `|x|`.
pub open spec fn abs(x: int) -> int {
    if x < 0 { -x } else { x }
}

/// The sign of `x`.
pub open spec fn signum(x: int) -> int {
    if x < 0 { -1 } else if x > 0 { 1 } else { 0 }
}

pub proof fn lemma_supercover_branch(ix: int, iy: int, nx: int, ny: int)
    requires
        0 <= ix <= nx,
        0 <= iy <= ny,
        ix < nx || iy < ny,
    ensures
        (1 + 2 * ix) * ny == (1 + 2 * iy) * nx ==> ix < nx && iy < ny,
        (1 + 2 * ix) * ny < (1 + 2 * iy) * nx ==> ix < nx,
        (1 + 2 * ix) * ny > (1 + 2 * iy) * nx ==> iy < ny,
{
    if ix == nx {
        assert((1 + 2 * iy) * nx < (1 + 2 * ix) * ny) by (nonlinear_arith)
            requires
                ix == nx,
                iy < ny,
                0 <= iy,
                0 <= nx;
    }
    if iy == ny {
        assert((1 + 2 * ix) * ny < (1 + 2 * iy) * nx) by (nonlinear_arith)
            requires
                iy == ny,
                ix < nx,
                0 <= ix,
                0 <= ny;
    }
}

/// The cells the supercover walk visits after position `(x, y)`, having
/// taken `ix` of `nx` horizontal and `iy` of `ny` vertical unit steps in
/// directions `sx`, `sy`. A step goes along the axis whose next grid-line
/// crossing along the centre-to-centre segment comes first; an exact corner
/// crossing visits both orthogonal neighbours before the diagonal cell.
pub open spec fn supercover_steps(x: int, y: int, ix: int, iy: int, nx: int, ny: int, sx: int, sy: int) -> Seq<GridAddress>
    decreases (nx - ix) + (ny - iy),
    when 0 <= ix <= nx && 0 <= iy <= ny
{
    if !(ix < nx || iy < ny) {
        Seq::empty()
    } else {
        proof {
            lemma_supercover_branch(ix, iy, nx, ny);
        }
        let lhs = (1 + 2 * ix) * ny;
        let rhs = (1 + 2 * iy) * nx;
        if lhs == rhs {
            seq![ga(x + sx, y), ga(x, y + sy), ga(x + sx, y + sy)] + supercover_steps(
                x + sx,
                y + sy,
                ix + 1,
                iy + 1,
                nx,
                ny,
                sx,
                sy,
            )
        } else if lhs < rhs {
            seq![ga(x + sx, y)] + supercover_steps(x + sx, y, ix + 1, iy, nx, ny, sx, sy)
        } else {
            seq![ga(x, y + sy)] + supercover_steps(x, y + sy, ix, iy + 1, nx, ny, sx, sy)
        }
    }
}

/// `s` with every repeated element after its first occurrence removed.
pub open spec fn dedup(s: Seq<GridAddress>) -> Seq<GridAddress>
    decreases s.len(),
{
    if s.len() == 0 {
        s
    } else {
        let d = dedup(s.drop_last());
        if d.contains(s.last()) {
            d
        } else {
            d.push(s.last())
        }
    }
}

/// The ordered supercover from `start` to `end`.
pub open spec fn supercover_spec(start: GridAddress, end: GridAddress) -> Seq<GridAddress> {
    let dx = end.u - start.u;
    let dy = end.v - start.v;
    dedup(
        seq![start] + supercover_steps(
            start.u as int,
            start.v as int,
            0,
            0,
            abs(dx),
            abs(dy),
            signum(dx),
            signum(dy),
        ),
    )
}

/// The supercover arithmetic of `start` to `end` stays within `i32`.
pub open spec fn supercover_fits(start: GridAddress, end: GridAddress) -> bool {
    let nx = abs(end.u - start.u);
    let ny = abs(end.v - start.v);
    &&& i32::MIN < end.u - start.u <= i32::MAX
    &&& i32::MIN < end.v - start.v <= i32::MAX
    &&& 1 + 2 * nx <= i32::MAX
    &&& 1 + 2 * ny <= i32::MAX
    &&& (1 + 2 * nx) * ny <= i32::MAX
    &&& (1 + 2 * ny) * nx <= i32::MAX
}

proof fn lemma_dedup_unique(s: Seq<GridAddress>)
    ensures
        dedup(s).no_duplicates(),
        forall|a: GridAddress| dedup(s).contains(a) <==> s.contains(a),
    decreases s.len(),
{
    if s.len() > 0 {
        let t = s.drop_last();
        let d = dedup(t);
        let x = s.last();
        lemma_dedup_unique(t);
        assert forall|a: GridAddress| s.contains(a) <==> (t.contains(a) || a == x) by {
            if s.contains(a) {
                let i = choose|i: int| 0 <= i < s.len() && s[i] == a;
                if i < s.len() - 1 {
                    assert(t[i] == a);
                }
            }
            if t.contains(a) {
                let i = choose|i: int| 0 <= i < t.len() && t[i] == a;
                assert(s[i] == a);
            }
            if a == x {
                assert(s[s.len() - 1] == a);
            }
        }
        if d.contains(x) {
            assert(dedup(s) == d);
        } else {
            assert(dedup(s) == d.push(x));
            assert forall|a: GridAddress| d.push(x).contains(a) <==> (d.contains(a) || a == x) by {
                if d.push(x).contains(a) {
                    let i = choose|i: int| 0 <= i < d.push(x).len() && d.push(x)[i] == a;
                    if i < d.len() {
                        assert(d[i] == a);
                    }
                }
                if d.contains(a) {
                    let i = choose|i: int| 0 <= i < d.len() && d[i] == a;
                    assert(d.push(x)[i] == a);
                }
                if a == x {
                    assert(d.push(x)[d.len() as int] == a);
                }
            }
            assert forall|i: int, j: int| 0 <= i < d.push(x).len() && 0 <= j < d.push(x).len() && i != j implies d.push(x)[i] != d.push(x)[j] by {
                if i < d.len() && j < d.len() {
                } else if i < d.len() {
                    assert(d.contains(d[i]));
                } else if j < d.len() {
                    assert(d.contains(d[j]));
                }
            }
        }
    }
}

/// Keeps the first occurrence of every address, in order.
fn deduplicate_ordered(values: Vec<GridAddress>) -> (out: Vec<GridAddress>)
    ensures
        out@ == dedup(values@),
{
    let mut out: Vec<GridAddress> = Vec::new();
    let mut i: usize = 0;
    while i < values.len()
        invariant
            i <= values@.len(),
            out@ == dedup(values@.subrange(0, i as int)),
        decreases values@.len() - i,
    {
        let value = values[i];
        let seen = contains_address(&out, value);
        proof {
            assert(values@.subrange(0, i + 1).drop_last() =~= values@.subrange(0, i as int));
        }
        if !seen {
            out.push(value);
        }
        i = i + 1;
    }
    proof {
        assert(values@.subrange(0, values@.len() as int) =~= values@);
    }
    out
}

/// Whether `v` holds `a`.
pub(crate) fn contains_address(v: &Vec<GridAddress>, a: GridAddress) -> (b: bool)
    ensures
        b <==> v@.contains(a),
{
    let mut k: usize = 0;
    while k < v.len()
        invariant
            k <= v@.len(),
            forall|j: int| 0 <= j < k ==> v@[j] != a,
        decreases v@.len() - k,
    {
        if v[k].u == a.u && v[k].v == a.v {
            assert(v@[k as int] == a);
            return true;
        }
        k = k + 1;
    }
    false
}

/// Ordered integer supercover: every cell touched by the centre-to-centre
/// segment is included. Corner crossings include both orthogonal neighbours.
pub fn supercover_path(start: GridAddress, end: GridAddress) -> (path: Vec<GridAddress>)
    requires
        supercover_fits(start, end),
    ensures
        path@ == supercover_spec(start, end),
        path@.no_duplicates(),
        path@.len() > 0 && path@[0] == start,
{
    let dx = end.u - start.u;
    let dy = end.v - start.v;
    let nx = if dx < 0 { -dx } else { dx };
    let ny = if dy < 0 { -dy } else { dy };
    let sx: i32 = if dx < 0 { -1 } else if dx > 0 { 1 } else { 0 };
    let sy: i32 = if dy < 0 { -1 } else if dy > 0 { 1 } else { 0 };
    let mut out: Vec<GridAddress> = Vec::new();
    out.push(start);
    let mut x = start.u;
    let mut y = start.v;
    let mut ix: i32 = 0;
    let mut iy: i32 = 0;
    let ghost whole = seq![start] + supercover_steps(start.u as int, start.v as int, 0, 0, nx as int, ny as int, sx as int, sy as int);
    proof {
        assert(out@ + supercover_steps(x as int, y as int, 0, 0, nx as int, ny as int, sx as int, sy as int) =~= whole);
    }
    while ix < nx || iy < ny
        invariant
            supercover_fits(start, end),
            nx == abs(end.u - start.u),
            ny == abs(end.v - start.v),
            sx == signum(end.u - start.u),
            sy == signum(end.v - start.v),
            0 <= ix <= nx,
            0 <= iy <= ny,
            x == start.u + sx * ix,
            y == start.v + sy * iy,
            out@ + supercover_steps(x as int, y as int, ix as int, iy as int, nx as int, ny as int, sx as int, sy as int) == whole,
        decreases (nx - ix) + (ny - iy),
    {
        proof {
            lemma_supercover_branch(ix as int, iy as int, nx as int, ny as int);
            assert((1 + 2 * ix) * ny <= (1 + 2 * nx) * ny) by (nonlinear_arith)
                requires
                    ix <= nx,
                    ny >= 0;
            assert((1 + 2 * iy) * nx <= (1 + 2 * ny) * nx) by (nonlinear_arith)
                requires
                    iy <= ny,
                    nx >= 0;
            assert(0 <= (1 + 2 * ix) * ny) by (nonlinear_arith)
                requires
                    0 <= ix,
                    0 <= ny;
            assert(0 <= (1 + 2 * iy) * nx) by (nonlinear_arith)
                requires
                    0 <= iy,
                    0 <= nx;
            assert(start.u + sx * (ix + 1) == start.u + sx * ix + sx) by (nonlinear_arith);
            assert(start.v + sy * (iy + 1) == start.v + sy * iy + sy) by (nonlinear_arith);
            if ix < nx {
                assert(i32::MIN <= start.u + sx * (ix + 1) <= i32::MAX) by (nonlinear_arith)
                    requires
                        ix < nx,
                        nx == abs(end.u - start.u),
                        sx == signum(end.u - start.u),
                        0 <= ix;
            }
            if iy < ny {
                assert(i32::MIN <= start.v + sy * (iy + 1) <= i32::MAX) by (nonlinear_arith)
                    requires
                        iy < ny,
                        ny == abs(end.v - start.v),
                        sy == signum(end.v - start.v),
                        0 <= iy;
            }
        }
        let lhs = (1 + 2 * ix) * ny;
        let rhs = (1 + 2 * iy) * nx;
        let ghost rest = supercover_steps(x as int, y as int, ix as int, iy as int, nx as int, ny as int, sx as int, sy as int);
        if lhs == rhs {
            if ix < nx {
                out.push(GridAddress { u: x + sx, v: y });
            }
            if iy < ny {
                out.push(GridAddress { u: x, v: y + sy });
            }
            x = x + sx;
            y = y + sy;
            ix = ix + 1;
            iy = iy + 1;
            out.push(GridAddress { u: x, v: y });
        } else if lhs < rhs {
            x = x + sx;
            ix = ix + 1;
            out.push(GridAddress { u: x, v: y });
        } else {
            y = y + sy;
            iy = iy + 1;
            out.push(GridAddress { u: x, v: y });
        }
        proof {
            let tail = supercover_steps(x as int, y as int, ix as int, iy as int, nx as int, ny as int, sx as int, sy as int);
            assert(out@ + tail =~= whole) by {
                assert(rest.len() > 0);
            }
        }
    }
    proof {
        assert(supercover_steps(x as int, y as int, ix as int, iy as int, nx as int, ny as int, sx as int, sy as int) =~= Seq::<GridAddress>::empty());
        assert(out@ =~= whole);
        lemma_dedup_unique(whole);
        lemma_dedup_first(whole);
    }
    deduplicate_ordered(out)
}

proof fn lemma_dedup_first(s: Seq<GridAddress>)
    requires
        s.len() > 0,
    ensures
        dedup(s).len() > 0 && dedup(s)[0] == s[0],
    decreases s.len(),
{
    let t = s.drop_last();
    if s.len() > 1 {
        lemma_dedup_first(t);
        assert(t[0] == s[0]);
        let d = dedup(t);
        if d.contains(s.last()) {
            assert(dedup(s) == d);
        } else {
            assert(dedup(s) == d.push(s.last()));
            assert(d.push(s.last())[0] == d[0]);
        }
    } else {
        assert(t =~= Seq::<GridAddress>::empty());
        assert(dedup(t) == t);
        assert(!t.contains(s.last()));
        assert(dedup(s) == t.push(s.last()));
    }
}

// ---------------------------------------------------------------------------
// Thin 8-connected lines
// ---------------------------------------------------------------------------

/// The accumulated Bresenham error after `kx` horizontal and `ky` vertical
/// steps of a line spanning `dx` by `dy` cells.
pub open spec fn line_error(kx: int, ky: int, dx: int, dy: int) -> int {
    dx - dy - dy * kx + dx * ky
}

pub proof fn lemma_line_step(kx: int, ky: int, dx: int, dy: int)
    requires
        0 <= kx <= dx,
        0 <= ky <= dy,
        !(kx == dx && ky == dy),
    ensures
        2 * line_error(kx, ky, dx, dy) >= -dy || 2 * line_error(kx, ky, dx, dy) <= dx,
        2 * line_error(kx, ky, dx, dy) >= -dy ==> kx < dx,
        2 * line_error(kx, ky, dx, dy) <= dx ==> ky < dy,
{
    if kx == dx {
        assert(2 * line_error(kx, ky, dx, dy) < -dy) by (nonlinear_arith)
            requires
                kx == dx,
                0 <= ky < dy,
                0 <= dx;
    }
    if ky == dy {
        assert(2 * line_error(kx, ky, dx, dy) > dx) by (nonlinear_arith)
            requires
                ky == dy,
                0 <= kx < dx,
                0 <= dy;
    }
}

/// The thin line's cells from step `(kx, ky)` on, ending at the far endpoint.
/// Each step moves along x when twice the error reaches `-dy` and along y
/// when it is at most `dx`; an exact tie moves diagonally.
pub open spec fn line_walk(x0: int, y0: int, kx: int, ky: int, dx: int, dy: int, sx: int, sy: int) -> Seq<GridAddress>
    decreases (dx - kx) + (dy - ky),
    when 0 <= kx <= dx && 0 <= ky <= dy
{
    let cell = ga(x0 + sx * kx, y0 + sy * ky);
    if kx == dx && ky == dy {
        seq![cell]
    } else {
        proof {
            lemma_line_step(kx, ky, dx, dy);
        }
        let twice = 2 * line_error(kx, ky, dx, dy);
        let nkx = if twice >= -dy { kx + 1 } else { kx };
        let nky = if twice <= dx { ky + 1 } else { ky };
        seq![cell] + line_walk(x0, y0, nkx, nky, dx, dy, sx, sy)
    }
}

/// `a` precedes `b` in `(u, v)` lexicographic order.
pub open spec fn lex_uv_lt(a: GridAddress, b: GridAddress) -> bool {
    a.u < b.u || (a.u == b.u && a.v < b.v)
}

/// The Bresenham line from `start` to `end`.
pub open spec fn line_forward(start: GridAddress, end: GridAddress) -> Seq<GridAddress> {
    line_walk(
        start.u as int,
        start.v as int,
        0,
        0,
        abs(end.u - start.u),
        abs(end.v - start.v),
        signum(end.u - start.u),
        signum(end.v - start.v),
    )
}

/// The thin line from `a` to `b`: always drawn from the lexicographically
/// smaller endpoint, then reversed when needed.
pub open spec fn thin_line_spec(a: GridAddress, b: GridAddress) -> Seq<GridAddress> {
    if a == b {
        seq![a]
    } else if lex_uv_lt(b, a) {
        line_forward(b, a).reverse()
    } else {
        line_forward(a, b)
    }
}

/// The coordinate differences of `a` and `b` are representable.
pub open spec fn span_fits(a: GridAddress, b: GridAddress) -> bool {
    &&& i32::MIN < b.u - a.u <= i32::MAX
    &&& i32::MIN < b.v - a.v <= i32::MAX
}

/// A thin 8-connected path. Exact error ties take a diagonal step. The
/// canonical endpoint ordering makes `path(b, a) == reverse(path(a, b))`.
pub fn thin_line_path(a: GridAddress, b: GridAddress) -> (path: Vec<GridAddress>)
    requires
        span_fits(a, b),
    ensures
        path@ == thin_line_spec(a, b),
{
    if a.u == b.u && a.v == b.v {
        let mut out: Vec<GridAddress> = Vec::new();
        out.push(a);
        proof {
            assert(a == b);
        }
        return out;
    }
    let reversed = a.u > b.u || (a.u == b.u && a.v > b.v);
    let (start, end) = if reversed { (b, a) } else { (a, b) };
    let ddx = end.u - start.u;
    let ddy = end.v - start.v;
    let dx = if ddx < 0 { -ddx } else { ddx };
    let dy = if ddy < 0 { -ddy } else { ddy };
    let sx: i32 = if ddx < 0 { -1 } else if ddx > 0 { 1 } else { 0 };
    let sy: i32 = if ddy < 0 { -1 } else if ddy > 0 { 1 } else { 0 };
    let mut err: i128 = dx as i128 - dy as i128;
    let mut x = start.u;
    let mut y = start.v;
    let ghost mut kx: int = 0;
    let ghost mut ky: int = 0;
    let ghost whole = line_walk(start.u as int, start.v as int, 0, 0, dx as int, dy as int, sx as int, sy as int);
    let mut out: Vec<GridAddress> = Vec::new();
    loop
        invariant_except_break
            0 <= kx <= dx,
            0 <= ky <= dy,
            x == start.u + sx * kx,
            y == start.v + sy * ky,
            err == line_error(kx, ky, dx as int, dy as int),
            dx == abs(end.u - start.u),
            dy == abs(end.v - start.v),
            sx == signum(end.u - start.u),
            sy == signum(end.v - start.v),
            span_fits(start, end),
            out@ + line_walk(start.u as int, start.v as int, kx, ky, dx as int, dy as int, sx as int, sy as int) == whole,
        ensures
            out@ == whole,
        decreases (dx - kx) + (dy - ky),
    {
        let ghost rest = line_walk(start.u as int, start.v as int, kx, ky, dx as int, dy as int, sx as int, sy as int);
        out.push(GridAddress { u: x, v: y });
        if x == end.u && y == end.v {
            proof {
                assert(sx * kx == sx * (dx as int)) by (nonlinear_arith)
                    requires
                        x == start.u + sx * kx,
                        x == end.u,
                        dx == abs(end.u - start.u),
                        sx == signum(end.u - start.u);
                assert(kx == dx) by (nonlinear_arith)
                    requires
                        sx * kx == sx * (dx as int),
                        dx == abs(end.u - start.u),
                        sx == signum(end.u - start.u),
                        0 <= kx <= dx;
                assert(sy * ky == sy * (dy as int)) by (nonlinear_arith)
                    requires
                        y == start.v + sy * ky,
                        y == end.v,
                        dy == abs(end.v - start.v),
                        sy == signum(end.v - start.v);
                assert(ky == dy) by (nonlinear_arith)
                    requires
                        sy * ky == sy * (dy as int),
                        dy == abs(end.v - start.v),
                        sy == signum(end.v - start.v),
                        0 <= ky <= dy;
                assert(rest =~= seq![ga(x as int, y as int)]);
            }
            break;
        }
        proof {
            if kx == dx && ky == dy {
                assert(start.u + sx * (dx as int) == end.u) by (nonlinear_arith)
                    requires
                        dx == abs(end.u - start.u),
                        sx == signum(end.u - start.u);
                assert(start.v + sy * (dy as int) == end.v) by (nonlinear_arith)
                    requires
                        dy == abs(end.v - start.v),
                        sy == signum(end.v - start.v);
            }
            lemma_line_step(kx, ky, dx as int, dy as int);
            assert(-0x10_0000_0000_0000_0000 < err < 0x10_0000_0000_0000_0000) by (nonlinear_arith)
                requires
                    err == line_error(kx, ky, dx as int, dy as int),
                    0 <= kx <= dx,
                    0 <= ky <= dy,
                    dx <= 0x8000_0000,
                    dy <= 0x8000_0000;
        }
        let twice = 2 * err;
        if twice >= -(dy as i128) {
            proof {
                assert(i32::MIN <= start.u + sx * (kx + 1) <= i32::MAX) by (nonlinear_arith)
                    requires
                        kx < dx,
                        dx == abs(end.u - start.u),
                        sx == signum(end.u - start.u),
                        0 <= kx;
                assert(start.u + sx * (kx + 1) == x + sx) by (nonlinear_arith)
                    requires
                        x == start.u + sx * kx;
            }
            proof {
                assert(line_error(kx + 1, ky, dx as int, dy as int) == line_error(kx, ky, dx as int, dy as int) - dy) by (nonlinear_arith);
            }
            err = err - dy as i128;
            x = x + sx;
            proof {
                kx = kx + 1;
            }
        }
        if twice <= dx as i128 {
            proof {
                assert(i32::MIN <= start.v + sy * (ky + 1) <= i32::MAX) by (nonlinear_arith)
                    requires
                        ky < dy,
                        dy == abs(end.v - start.v),
                        sy == signum(end.v - start.v),
                        0 <= ky;
                assert(start.v + sy * (ky + 1) == y + sy) by (nonlinear_arith)
                    requires
                        y == start.v + sy * ky;
            }
            proof {
                assert(line_error(kx, ky + 1, dx as int, dy as int) == line_error(kx, ky, dx as int, dy as int) + dx) by (nonlinear_arith);
            }
            err = err + dx as i128;
            y = y + sy;
            proof {
                ky = ky + 1;
            }
        }
    }
    if reversed {
        reversed_addresses(&out)
    } else {
        out
    }
}

/// The addresses of `v` in reverse order.
fn reversed_addresses(v: &Vec<GridAddress>) -> (r: Vec<GridAddress>)
    ensures
        r@ == v@.reverse(),
{
    let mut r: Vec<GridAddress> = Vec::new();
    let mut k: usize = v.len();
    while k > 0
        invariant
            k <= v@.len(),
            r@ =~= v@.subrange(k as int, v@.len() as int).reverse(),
        decreases k,
    {
        k = k - 1;
        r.push(v[k]);
        proof {
            assert(v@.subrange(k as int, v@.len() as int).reverse() =~= v@.subrange(k + 1, v@.len() as int).reverse().push(v@[k as int]));
        }
    }
    proof {
        assert(v@.subrange(0, v@.len() as int) =~= v@);
    }
    r
}

/// Consecutive cells of `s` are equal or 8-neighbours.
pub open spec fn eight_connected(s: Seq<GridAddress>) -> bool {
    forall|i: int| 1 <= i < s.len() ==> abs(#[trigger] s[i].u - s[i - 1].u) <= 1 && abs(s[i].v - s[i - 1].v) <= 1
}

/// Swapping the endpoints of a thin line reverses it.
pub proof fn thin_line_reverse_symmetric(a: GridAddress, b: GridAddress)
    ensures
        thin_line_spec(b, a) == thin_line_spec(a, b).reverse(),
{
    if a == b {
        assert(seq![a].reverse() =~= seq![a]);
    } else if lex_uv_lt(b, a) {
        assert(line_forward(b, a).reverse().reverse() =~= line_forward(b, a));
    } else {
        assert(lex_uv_lt(a, b));
    }
}

proof fn lemma_line_walk_connected(x0: int, y0: int, kx: int, ky: int, dx: int, dy: int, sx: int, sy: int)
    requires
        0 <= kx <= dx,
        0 <= ky <= dy,
        -1 <= sx <= 1,
        -1 <= sy <= 1,
        i32::MIN <= x0 + sx * kx && x0 + sx * dx <= i32::MAX && i32::MIN <= x0 + sx * dx && x0 + sx * kx <= i32::MAX,
        i32::MIN <= y0 + sy * ky && y0 + sy * dy <= i32::MAX && i32::MIN <= y0 + sy * dy && y0 + sy * ky <= i32::MAX,
    ensures
        eight_connected(line_walk(x0, y0, kx, ky, dx, dy, sx, sy)),
        line_walk(x0, y0, kx, ky, dx, dy, sx, sy).len() > 0,
        line_walk(x0, y0, kx, ky, dx, dy, sx, sy)[0] == ga(x0 + sx * kx, y0 + sy * ky),
    decreases (dx - kx) + (dy - ky),
{
    let w = line_walk(x0, y0, kx, ky, dx, dy, sx, sy);
    if !(kx == dx && ky == dy) {
        lemma_line_step(kx, ky, dx, dy);
        let twice = 2 * line_error(kx, ky, dx, dy);
        let nkx = if twice >= -dy { kx + 1 } else { kx };
        let nky = if twice <= dx { ky + 1 } else { ky };
        assert(i32::MIN <= x0 + sx * nkx <= i32::MAX && i32::MIN <= y0 + sy * nky <= i32::MAX) by (nonlinear_arith)
            requires
                0 <= nkx <= dx,
                0 <= nky <= dy,
                -1 <= sx <= 1,
                -1 <= sy <= 1,
                i32::MIN <= x0 + sx * kx && x0 + sx * dx <= i32::MAX && i32::MIN <= x0 + sx * dx && x0 + sx * kx <= i32::MAX,
                i32::MIN <= y0 + sy * ky && y0 + sy * dy <= i32::MAX && i32::MIN <= y0 + sy * dy && y0 + sy * ky <= i32::MAX,
                kx <= nkx,
                ky <= nky;
        lemma_line_walk_connected(x0, y0, nkx, nky, dx, dy, sx, sy);
        let rest = line_walk(x0, y0, nkx, nky, dx, dy, sx, sy);
        assert(w == seq![ga(x0 + sx * kx, y0 + sy * ky)] + rest);
        assert(abs(x0 + sx * nkx - (x0 + sx * kx)) <= 1 && abs(y0 + sy * nky - (y0 + sy * ky)) <= 1) by (nonlinear_arith)
            requires
                nkx == kx || nkx == kx + 1,
                nky == ky || nky == ky + 1,
                -1 <= sx <= 1,
                -1 <= sy <= 1;
        assert(w[0] == ga(x0 + sx * kx, y0 + sy * ky));
        assert(w[1] == ga(x0 + sx * nkx, y0 + sy * nky));
        assert(w[1].u as int == x0 + sx * nkx && w[0].u as int == x0 + sx * kx);
        assert(w[1].v as int == y0 + sy * nky && w[0].v as int == y0 + sy * ky);
        assert forall|i: int| 1 <= i < w.len() implies abs(#[trigger] w[i].u - w[i - 1].u) <= 1 && abs(w[i].v - w[i - 1].v) <= 1 by {
            if i > 1 {
                assert(w[i] == rest[i - 1] && w[i - 1] == rest[i - 2]);
                assert(abs(rest[i - 1].u - rest[i - 2].u) <= 1);
            }
        }
    }
}

/// A thin line is 8-connected.
pub proof fn thin_line_eight_connected(a: GridAddress, b: GridAddress)
    requires
        span_fits(a, b),
    ensures
        eight_connected(thin_line_spec(a, b)),
{
    if a != b {
        let (start, end) = if lex_uv_lt(b, a) { (b, a) } else { (a, b) };
        let dx = abs(end.u - start.u);
        let dy = abs(end.v - start.v);
        let sx = signum(end.u - start.u);
        let sy = signum(end.v - start.v);
        assert(start.u + sx * dx == end.u && start.v + sy * dy == end.v) by (nonlinear_arith)
            requires
                dx == abs(end.u - start.u),
                sx == signum(end.u - start.u),
                dy == abs(end.v - start.v),
                sy == signum(end.v - start.v);
        lemma_line_walk_connected(start.u as int, start.v as int, 0, 0, dx, dy, sx, sy);
        let w = line_forward(start, end);
        if lex_uv_lt(b, a) {
            let r = w.reverse();
            assert forall|i: int| 1 <= i < r.len() implies abs(#[trigger] r[i].u - r[i - 1].u) <= 1 && abs(r[i].v - r[i - 1].v) <= 1 by {
                let j = w.len() - i;
                assert(r[i] == w[j - 1] && r[i - 1] == w[j]);
                assert(abs(w[j].u - w[j - 1].u) <= 1);
            }
        }
    } else {
        assert(thin_line_spec(a, b) =~= seq![a]);
    }
}

proof fn lemma_line_walk_ends(x0: int, y0: int, kx: int, ky: int, dx: int, dy: int, sx: int, sy: int)
    requires
        0 <= kx <= dx,
        0 <= ky <= dy,
    ensures
        line_walk(x0, y0, kx, ky, dx, dy, sx, sy).len() > 0,
        line_walk(x0, y0, kx, ky, dx, dy, sx, sy)[0] == ga(x0 + sx * kx, y0 + sy * ky),
        line_walk(x0, y0, kx, ky, dx, dy, sx, sy).last() == ga(x0 + sx * dx, y0 + sy * dy),
    decreases (dx - kx) + (dy - ky),
{
    if !(kx == dx && ky == dy) {
        lemma_line_step(kx, ky, dx, dy);
        let twice = 2 * line_error(kx, ky, dx, dy);
        let nkx = if twice >= -dy { kx + 1 } else { kx };
        let nky = if twice <= dx { ky + 1 } else { ky };
        lemma_line_walk_ends(x0, y0, nkx, nky, dx, dy, sx, sy);
        let rest = line_walk(x0, y0, nkx, nky, dx, dy, sx, sy);
        assert(line_walk(x0, y0, kx, ky, dx, dy, sx, sy) == seq![ga(x0 + sx * kx, y0 + sy * ky)] + rest);
    }
}

/// How far along a walk a cell lies: the steps taken in x and in y.
pub open spec fn walk_key(x0: int, y0: int, sx: int, sy: int, c: GridAddress) -> int {
    sx * (c.u - x0) + sy * (c.v - y0)
}

proof fn lemma_line_walk_increasing(x0: int, y0: int, kx: int, ky: int, dx: int, dy: int, sx: int, sy: int)
    requires
        0 <= kx <= dx,
        0 <= ky <= dy,
        sx == 1 || sx == -1 || (sx == 0 && dx == 0),
        sy == 1 || sy == -1 || (sy == 0 && dy == 0),
        i32::MIN <= x0 + sx * kx && x0 + sx * dx <= i32::MAX && i32::MIN <= x0 + sx * dx && x0 + sx * kx <= i32::MAX,
        i32::MIN <= y0 + sy * ky && y0 + sy * dy <= i32::MAX && i32::MIN <= y0 + sy * dy && y0 + sy * ky <= i32::MAX,
    ensures
        ({
            let w = line_walk(x0, y0, kx, ky, dx, dy, sx, sy);
            &&& forall|i: int| 0 <= i < w.len() ==> walk_key(x0, y0, sx, sy, #[trigger] w[i]) >= kx + ky
            &&& forall|i: int, j: int| 0 <= i < j < w.len() ==> walk_key(x0, y0, sx, sy, #[trigger] w[i]) < walk_key(x0, y0, sx, sy, #[trigger] w[j])
        }),
    decreases (dx - kx) + (dy - ky),
{
    let w = line_walk(x0, y0, kx, ky, dx, dy, sx, sy);
    let c = ga(x0 + sx * kx, y0 + sy * ky);
    assert(c.u as int == x0 + sx * kx && c.v as int == y0 + sy * ky);
    assert(walk_key(x0, y0, sx, sy, c) == kx + ky) by (nonlinear_arith)
        requires
            c.u == x0 + sx * kx,
            c.v == y0 + sy * ky,
            sx == 1 || sx == -1 || (sx == 0 && kx == 0),
            sy == 1 || sy == -1 || (sy == 0 && ky == 0);
    if kx == dx && ky == dy {
        assert(w == seq![c]);
    } else {
        lemma_line_step(kx, ky, dx, dy);
        let twice = 2 * line_error(kx, ky, dx, dy);
        let nkx = if twice >= -dy { kx + 1 } else { kx };
        let nky = if twice <= dx { ky + 1 } else { ky };
        assert(i32::MIN <= x0 + sx * nkx <= i32::MAX && i32::MIN <= y0 + sy * nky <= i32::MAX) by (nonlinear_arith)
            requires
                0 <= nkx <= dx,
                0 <= nky <= dy,
                -1 <= sx <= 1,
                -1 <= sy <= 1,
                i32::MIN <= x0 + sx * kx && x0 + sx * dx <= i32::MAX && i32::MIN <= x0 + sx * dx && x0 + sx * kx <= i32::MAX,
                i32::MIN <= y0 + sy * ky && y0 + sy * dy <= i32::MAX && i32::MIN <= y0 + sy * dy && y0 + sy * ky <= i32::MAX,
                kx <= nkx,
                ky <= nky;
        lemma_line_walk_increasing(x0, y0, nkx, nky, dx, dy, sx, sy);
        let rest = line_walk(x0, y0, nkx, nky, dx, dy, sx, sy);
        assert(w == seq![c] + rest);
        assert forall|i: int| 0 <= i < w.len() implies walk_key(x0, y0, sx, sy, #[trigger] w[i]) >= kx + ky by {
            if i > 0 {
                assert(w[i] == rest[i - 1]);
            }
        }
        assert forall|i: int, j: int| 0 <= i < j < w.len() implies walk_key(x0, y0, sx, sy, #[trigger] w[i]) < walk_key(x0, y0, sx, sy, #[trigger] w[j]) by {
            assert(w[j] == rest[j - 1]);
            if i > 0 {
                assert(w[i] == rest[i - 1]);
            } else {
                assert(w[0] == c);
            }
        }
    }
}

/// No cell occurs twice on a thin line.
pub proof fn thin_line_has_no_repeats(a: GridAddress, b: GridAddress)
    requires
        span_fits(a, b),
    ensures
        thin_line_spec(a, b).no_duplicates(),
{
    if a != b {
        let (start, end) = if lex_uv_lt(b, a) { (b, a) } else { (a, b) };
        let dx = abs(end.u - start.u);
        let dy = abs(end.v - start.v);
        let sx = signum(end.u - start.u);
        let sy = signum(end.v - start.v);
        assert(start.u + sx * dx == end.u && start.v + sy * dy == end.v) by (nonlinear_arith)
            requires
                dx == abs(end.u - start.u),
                sx == signum(end.u - start.u),
                dy == abs(end.v - start.v),
                sy == signum(end.v - start.v);
        let x0 = start.u as int;
        let y0 = start.v as int;
        lemma_line_walk_increasing(x0, y0, 0, 0, dx, dy, sx, sy);
        let w = line_forward(start, end);
        assert forall|i: int, j: int| 0 <= i < w.len() && 0 <= j < w.len() && i != j implies w[i] != w[j] by {
            if i < j {
                assert(walk_key(x0, y0, sx, sy, w[i]) < walk_key(x0, y0, sx, sy, w[j]));
            } else {
                assert(walk_key(x0, y0, sx, sy, w[j]) < walk_key(x0, y0, sx, sy, w[i]));
            }
        }
        if lex_uv_lt(b, a) {
            let r = w.reverse();
            assert forall|i: int, j: int| 0 <= i < r.len() && 0 <= j < r.len() && i != j implies r[i] != r[j] by {
                assert(r[i] == w[w.len() - 1 - i] && r[j] == w[w.len() - 1 - j]);
            }
        }
    }
}

/// The u coordinate of `c`, as an integer.
pub open spec fn cu(c: GridAddress) -> int {
    c.u as int
}

/// The v coordinate of `c`, as an integer.
pub open spec fn cv(c: GridAddress) -> int {
    c.v as int
}

/// Progress of `c` from `(x, y)` along the walk's directions.
pub open spec fn ahead(x: int, y: int, sx: int, sy: int, c: GridAddress) -> bool {
    &&& sx * (cu(c) - x) >= 0
    &&& sy * (cv(c) - y) >= 0
    &&& sx * (cu(c) - x) + sy * (cv(c) - y) >= 1
}

pub open spec fn unit_sign(s: int, n: int) -> bool {
    s == 1 || s == -1 || (s == 0 && n == 0)
}

pub open spec fn in_i32(a: int) -> bool {
    i32::MIN <= a <= i32::MAX
}

/// What the cells after `c` satisfy, relative to `c`.
pub open spec fn tail_ok(c: GridAddress, sx: int, sy: int, rest: Seq<GridAddress>) -> bool {
    &&& eight_connected(rest)
    &&& rest.no_duplicates()
    &&& forall|i: int| 0 <= i < rest.len() ==> ahead(cu(c), cv(c), sx, sy, #[trigger] rest[i])
    &&& rest.len() > 0 ==> abs(cu(rest[0]) - cu(c)) <= 1 && abs(cv(rest[0]) - cv(c)) <= 1
}

/// What the cells after `(x, y)` satisfy, relative to `(x, y)`.
pub open spec fn walk_ok(x: int, y: int, sx: int, sy: int, s: Seq<GridAddress>) -> bool {
    &&& eight_connected(s)
    &&& s.no_duplicates()
    &&& forall|i: int| 0 <= i < s.len() ==> ahead(x, y, sx, sy, #[trigger] s[i])
    &&& s.len() > 0 ==> abs(cu(s[0]) - x) <= 1 && abs(cv(s[0]) - y) <= 1
}

proof fn lemma_rest_ahead(x: int, y: int, sx: int, sy: int, c: GridAddress, rest: Seq<GridAddress>)
    requires
        tail_ok(c, sx, sy, rest),
        (cu(c) == x + sx && cv(c) == y) || (cu(c) == x && cv(c) == y + sy) || (cu(c) == x + sx && cv(c) == y + sy),
        -1 <= sx <= 1,
        -1 <= sy <= 1,
    ensures
        forall|i: int| 0 <= i < rest.len() ==> ahead(x, y, sx, sy, #[trigger] rest[i]),
{
    assert forall|i: int| 0 <= i < rest.len() implies ahead(x, y, sx, sy, #[trigger] rest[i]) by {
        let r = rest[i];
        assert(ahead(cu(c), cv(c), sx, sy, r));
        assert(ahead(x, y, sx, sy, r)) by (nonlinear_arith)
            requires
                ahead(cu(c), cv(c), sx, sy, r),
                (cu(c) == x + sx && cv(c) == y) || (cu(c) == x && cv(c) == y + sy) || (cu(c) == x + sx && cv(c) == y + sy),
                -1 <= sx <= 1,
                -1 <= sy <= 1;
    }
}

proof fn lemma_not_ahead_of_itself(sx: int, sy: int, c: GridAddress)
    ensures
        !ahead(cu(c), cv(c), sx, sy, c),
{
    assert(sx * (cu(c) - cu(c)) + sy * (cv(c) - cv(c)) == 0) by (nonlinear_arith);
}

#[verifier::spinoff_prover]
proof fn lemma_single_step(x: int, y: int, sx: int, sy: int, c: GridAddress, rest: Seq<GridAddress>)
    requires
        tail_ok(c, sx, sy, rest),
        (cu(c) == x + sx && cv(c) == y && (sx == 1 || sx == -1)) || (cu(c) == x && cv(c) == y + sy && (sy == 1 || sy == -1)),
        -1 <= sx <= 1,
        -1 <= sy <= 1,
    ensures
        walk_ok(x, y, sx, sy, seq![c] + rest),
{
    let s = seq![c] + rest;
    lemma_rest_ahead(x, y, sx, sy, c, rest);
    assert(ahead(x, y, sx, sy, c)) by (nonlinear_arith)
        requires
            (cu(c) == x + sx && cv(c) == y && (sx == 1 || sx == -1)) || (cu(c) == x && cv(c) == y + sy && (sy == 1 || sy == -1));
    assert forall|i: int| 0 <= i < s.len() implies ahead(x, y, sx, sy, #[trigger] s[i]) by {
        if i >= 1 {
            assert(s[i] == rest[i - 1]);
        }
    }
    assert forall|i: int, j: int| 0 <= i < j < s.len() implies s[i] != s[j] by {
        assert(s[j] == rest[j - 1]);
        if i >= 1 {
            assert(s[i] == rest[i - 1]);
        } else {
            assert(ahead(cu(c), cv(c), sx, sy, rest[j - 1]));
            lemma_not_ahead_of_itself(sx, sy, c);
        }
    }
    assert forall|i: int| 1 <= i < s.len() implies abs(#[trigger] s[i].u - s[i - 1].u) <= 1 && abs(s[i].v - s[i - 1].v) <= 1 by {
        assert(s[i] == rest[i - 1]);
        if i > 1 {
            assert(s[i - 1] == rest[i - 2]);
            assert(abs(rest[i - 1].u - rest[i - 2].u) <= 1);
        }
    }
    assert(abs(cu(s[0]) - x) <= 1 && abs(cv(s[0]) - y) <= 1) by (nonlinear_arith)
        requires
            cu(s[0]) == cu(c),
            cv(s[0]) == cv(c),
            (cu(c) == x + sx && cv(c) == y) || (cu(c) == x && cv(c) == y + sy),
            -1 <= sx <= 1,
            -1 <= sy <= 1;
}

#[verifier::spinoff_prover]
proof fn lemma_corner_step(x: int, y: int, sx: int, sy: int, a: GridAddress, b: GridAddress, c: GridAddress, rest: Seq<GridAddress>)
    requires
        tail_ok(c, sx, sy, rest),
        sx == 1 || sx == -1,
        sy == 1 || sy == -1,
        cu(a) == x + sx && cv(a) == y,
        cu(b) == x && cv(b) == y + sy,
        cu(c) == x + sx && cv(c) == y + sy,
    ensures
        walk_ok(x, y, sx, sy, seq![a, b, c] + rest),
{
    let s = seq![a, b, c] + rest;
    lemma_rest_ahead(x, y, sx, sy, c, rest);
    assert(ahead(x, y, sx, sy, a) && ahead(x, y, sx, sy, b) && ahead(x, y, sx, sy, c)) by (nonlinear_arith)
        requires
            cu(a) == x + sx, cv(a) == y, cu(b) == x, cv(b) == y + sy,
            cu(c) == x + sx, cv(c) == y + sy,
            sx == 1 || sx == -1,
            sy == 1 || sy == -1;
    assert(a != b && a != c && b != c);
    assert forall|i: int| 0 <= i < rest.len() implies rest[i] != a && rest[i] != b && rest[i] != c by {
        let r = rest[i];
        assert(ahead(cu(c), cv(c), sx, sy, r));
        assert(sy * (cv(a) - cv(c)) < 0 && sx * (cu(b) - cu(c)) < 0) by (nonlinear_arith)
            requires
                cv(a) == y, cv(c) == y + sy, cu(b) == x, cu(c) == x + sx,
                sx == 1 || sx == -1,
                sy == 1 || sy == -1;
    }
    assert forall|i: int| 0 <= i < s.len() implies ahead(x, y, sx, sy, #[trigger] s[i]) by {
        if i >= 3 {
            assert(s[i] == rest[i - 3]);
        }
    }
    assert forall|i: int, j: int| 0 <= i < j < s.len() implies s[i] != s[j] by {
        if j >= 3 {
            assert(s[j] == rest[j - 3]);
        }
        if i >= 3 {
            assert(s[i] == rest[i - 3]);
        }
    }
    assert(abs(a.u - c.u) <= 1 && abs(b.u - a.u) <= 1 && abs(a.v - c.v) <= 1 && abs(b.v - a.v) <= 1
        && abs(c.u - b.u) <= 1 && abs(c.v - b.v) <= 1 && abs(cu(a) - x) <= 1 && abs(cv(a) - y) <= 1) by (nonlinear_arith)
        requires
            cu(a) == x + sx, cv(a) == y, cu(b) == x, cv(b) == y + sy,
            cu(c) == x + sx, cv(c) == y + sy,
            cu(a) == a.u, cv(a) == a.v, cu(b) == b.u, cv(b) == b.v, cu(c) == c.u, cv(c) == c.v,
            -1 <= sx <= 1,
            -1 <= sy <= 1;
    assert forall|i: int| 1 <= i < s.len() implies abs(#[trigger] s[i].u - s[i - 1].u) <= 1 && abs(s[i].v - s[i - 1].v) <= 1 by {
        if i > 3 {
            assert(s[i] == rest[i - 3] && s[i - 1] == rest[i - 4]);
            assert(abs(rest[i - 3].u - rest[i - 4].u) <= 1);
        } else if i == 3 {
            assert(s[3] == rest[0]);
        }
    }
}

#[verifier::spinoff_prover]
#[verifier::rlimit(100)]
proof fn lemma_supercover_steps(x: int, y: int, ix: int, iy: int, nx: int, ny: int, sx: int, sy: int)
    requires
        0 <= ix <= nx,
        0 <= iy <= ny,
        unit_sign(sx, nx),
        unit_sign(sy, ny),
        in_i32(x),
        in_i32(y),
        in_i32(x + sx * (nx - ix)),
        in_i32(y + sy * (ny - iy)),
    ensures
        ({
            let s = supercover_steps(x, y, ix, iy, nx, ny, sx, sy);
            &&& (s.len() == 0 <==> (ix == nx && iy == ny))
            &&& s.len() > 0 ==> cu(s.last()) == x + sx * (nx - ix) && cv(s.last()) == y + sy * (ny - iy)
            &&& walk_ok(x, y, sx, sy, s)
        }),
    decreases (nx - ix) + (ny - iy),
{
    let s = supercover_steps(x, y, ix, iy, nx, ny, sx, sy);
    if ix < nx || iy < ny {
        lemma_supercover_branch(ix, iy, nx, ny);
        let lhs = (1 + 2 * ix) * ny;
        let rhs = (1 + 2 * iy) * nx;
        let (nxp, nyp, nix, niy) = if lhs == rhs {
            (x + sx, y + sy, ix + 1, iy + 1)
        } else if lhs < rhs {
            (x + sx, y, ix + 1, iy)
        } else {
            (x, y + sy, ix, iy + 1)
        };
        assert(in_i32(nxp) && in_i32(nyp) && nxp + sx * (nx - nix) == x + sx * (nx - ix) && nyp + sy * (ny - niy) == y + sy * (ny - iy)) by (nonlinear_arith)
            requires
                (nix == ix && nxp == x) || (nix == ix + 1 && nxp == x + sx),
                (niy == iy && nyp == y) || (niy == iy + 1 && nyp == y + sy),
                nix <= nx,
                niy <= ny,
                unit_sign(sx, nx),
                unit_sign(sy, ny),
                in_i32(x),
                in_i32(y),
                in_i32(x + sx * (nx - ix)),
                in_i32(y + sy * (ny - iy));
        lemma_supercover_steps(nxp, nyp, nix, niy, nx, ny, sx, sy);
        let rest = supercover_steps(nxp, nyp, nix, niy, nx, ny, sx, sy);
        let c = ga(nxp, nyp);
        assert(cu(c) == nxp && cv(c) == nyp);
        assert(tail_ok(c, sx, sy, rest));
        if lhs == rhs {
            let a = ga(x + sx, y);
            let b = ga(x, y + sy);
            assert(in_i32(x + sx) && in_i32(y + sy));
            assert(cu(a) == x + sx && cv(a) == y && cu(b) == x && cv(b) == y + sy);
            assert(s == seq![a, b, c] + rest);
            lemma_corner_step(x, y, sx, sy, a, b, c, rest);
            if rest.len() > 0 {
                assert(s.last() == rest.last());
            }
        } else {
            assert(s == seq![c] + rest);
            lemma_single_step(x, y, sx, sy, c, rest);
            if rest.len() > 0 {
                assert(s.last() == rest.last());
            }
        }
    }
}

/// Without repeats, removing repeats changes nothing.
proof fn lemma_dedup_identity(s: Seq<GridAddress>)
    requires
        s.no_duplicates(),
    ensures
        dedup(s) == s,
    decreases s.len(),
{
    if s.len() > 0 {
        let t = s.drop_last();
        assert(t.no_duplicates()) by {
            assert forall|i: int, j: int| 0 <= i < j < t.len() implies t[i] != t[j] by {
                assert(t[i] == s[i] && t[j] == s[j]);
            }
        }
        lemma_dedup_identity(t);
        if t.contains(s.last()) {
            let k = choose|k: int| 0 <= k < t.len() && t[k] == s.last();
            assert(s[k] == s[s.len() - 1]);
        }
        assert(t.push(s.last()) =~= s);
    }
}

/// The supercover ends at `end`, and each cell touches the one before it
/// (8-connected).
#[verifier::rlimit(60)]
pub proof fn supercover_reaches_end_connected(start: GridAddress, end: GridAddress)
    requires
        supercover_fits(start, end),
    ensures
        supercover_spec(start, end).last() == end,
        eight_connected(supercover_spec(start, end)),
{
    let dx = end.u - start.u;
    let dy = end.v - start.v;
    let nx = abs(dx);
    let ny = abs(dy);
    let sx = signum(dx);
    let sy = signum(dy);
    let x = start.u as int;
    let y = start.v as int;
    assert(x + sx * nx == end.u && y + sy * ny == end.v) by (nonlinear_arith)
        requires
            nx == abs(end.u - start.u),
            sx == signum(end.u - start.u),
            ny == abs(end.v - start.v),
            sy == signum(end.v - start.v),
            x == start.u,
            y == start.v;
    lemma_supercover_steps(x, y, 0, 0, nx, ny, sx, sy);
    let steps = supercover_steps(x, y, 0, 0, nx, ny, sx, sy);
    let whole = seq![start] + steps;
    assert(cu(start) == x && cv(start) == y);
    assert forall|i: int, j: int| 0 <= i < j < whole.len() implies whole[i] != whole[j] by {
        assert(whole[j] == steps[j - 1]);
        if i == 0 {
            assert(ahead(x, y, sx, sy, steps[j - 1]));
        } else {
            assert(whole[i] == steps[i - 1]);
        }
    }
    lemma_dedup_identity(whole);
    if steps.len() > 0 {
        assert(whole.last() == steps.last());
        assert(whole.last() == end);
    } else {
        assert(nx == 0 && ny == 0);
        assert(start == end);
    }
    assert forall|i: int| 1 <= i < whole.len() implies abs(#[trigger] whole[i].u - whole[i - 1].u) <= 1 && abs(whole[i].v - whole[i - 1].v) <= 1 by {
        if i == 1 {
            assert(whole[1] == steps[0] && whole[0] == start);
        } else {
            assert(whole[i] == steps[i - 1] && whole[i - 1] == steps[i - 2]);
            assert(abs(steps[i - 1].u - steps[i - 2].u) <= 1);
        }
    }
}

proof fn lemma_error_steps(kx: int, ky: int, dx: int, dy: int)
    ensures
        line_error(kx + 1, ky, dx, dy) == line_error(kx, ky, dx, dy) - dy,
        line_error(kx, ky + 1, dx, dy) == line_error(kx, ky, dx, dy) + dx,
        line_error(kx + 1, ky + 1, dx, dy) == line_error(kx, ky, dx, dy) - dy + dx,
{
    assert(line_error(kx + 1, ky, dx, dy) == line_error(kx, ky, dx, dy) - dy) by (nonlinear_arith);
    assert(line_error(kx, ky + 1, dx, dy) == line_error(kx, ky, dx, dy) + dx) by (nonlinear_arith);
    assert(line_error(kx + 1, ky + 1, dx, dy) == line_error(kx, ky, dx, dy) - dy + dx) by (nonlinear_arith);
}

/// Along a line at most as steep as its run, every step advances in x.
proof fn lemma_line_walk_len_x(x0: int, y0: int, kx: int, ky: int, dx: int, dy: int, sx: int, sy: int)
    requires
        0 <= kx <= dx,
        0 <= ky <= dy,
        dy <= dx,
        2 * line_error(kx, ky, dx, dy) >= -dy,
    ensures
        line_walk(x0, y0, kx, ky, dx, dy, sx, sy).len() == dx - kx + 1,
    decreases (dx - kx) + (dy - ky),
{
    if !(kx == dx && ky == dy) {
        lemma_line_step(kx, ky, dx, dy);
        let twice = 2 * line_error(kx, ky, dx, dy);
        let nky = if twice <= dx { ky + 1 } else { ky };
        lemma_error_steps(kx, ky, dx, dy);
        lemma_line_walk_len_x(x0, y0, kx + 1, nky, dx, dy, sx, sy);
    } else {
        assert(line_walk(x0, y0, kx, ky, dx, dy, sx, sy).len() == 1);
    }
}

/// Along a line at most as wide as its rise, every step advances in y.
proof fn lemma_line_walk_len_y(x0: int, y0: int, kx: int, ky: int, dx: int, dy: int, sx: int, sy: int)
    requires
        0 <= kx <= dx,
        0 <= ky <= dy,
        dx <= dy,
        2 * line_error(kx, ky, dx, dy) <= dx,
    ensures
        line_walk(x0, y0, kx, ky, dx, dy, sx, sy).len() == dy - ky + 1,
    decreases (dx - kx) + (dy - ky),
{
    if !(kx == dx && ky == dy) {
        lemma_line_step(kx, ky, dx, dy);
        let twice = 2 * line_error(kx, ky, dx, dy);
        let nkx = if twice >= -dy { kx + 1 } else { kx };
        lemma_error_steps(kx, ky, dx, dy);
        lemma_line_walk_len_y(x0, y0, nkx, ky + 1, dx, dy, sx, sy);
    } else {
        assert(line_walk(x0, y0, kx, ky, dx, dy, sx, sy).len() == 1);
    }
}

/// A thin line has one cell per step along its longer axis, plus one.
pub proof fn thin_line_length(a: GridAddress, b: GridAddress)
    ensures
        thin_line_spec(a, b).len() == (if abs(b.u - a.u) >= abs(b.v - a.v) { abs(b.u - a.u) } else { abs(b.v - a.v) }) + 1,
{
    if a != b {
        let (start, end) = if lex_uv_lt(b, a) { (b, a) } else { (a, b) };
        let dx = abs(end.u - start.u);
        let dy = abs(end.v - start.v);
        assert(dx == abs(b.u - a.u) && dy == abs(b.v - a.v));
        let x0 = start.u as int;
        let y0 = start.v as int;
        let sx = signum(end.u - start.u);
        let sy = signum(end.v - start.v);
        assert(line_error(0, 0, dx, dy) == dx - dy) by (nonlinear_arith);
        if dy <= dx {
            lemma_line_walk_len_x(x0, y0, 0, 0, dx, dy, sx, sy);
        } else {
            lemma_line_walk_len_y(x0, y0, 0, 0, dx, dy, sx, sy);
        }
    } else {
        assert(thin_line_spec(a, b) =~= seq![a]);
    }
}

/// A thin line starts at `a` and ends at `b`.
pub proof fn thin_line_joins_its_endpoints(a: GridAddress, b: GridAddress)
    ensures
        thin_line_spec(a, b).len() > 0,
        thin_line_spec(a, b)[0] == a,
        thin_line_spec(a, b).last() == b,
{
    if a != b {
        let (start, end) = if lex_uv_lt(b, a) { (b, a) } else { (a, b) };
        let dx = abs(end.u - start.u);
        let dy = abs(end.v - start.v);
        let sx = signum(end.u - start.u);
        let sy = signum(end.v - start.v);
        assert(start.u + sx * dx == end.u && start.v + sy * dy == end.v) by (nonlinear_arith)
            requires
                dx == abs(end.u - start.u),
                sx == signum(end.u - start.u),
                dy == abs(end.v - start.v),
                sy == signum(end.v - start.v);
        lemma_line_walk_ends(start.u as int, start.v as int, 0, 0, dx, dy, sx, sy);
        let w = line_forward(start, end);
        assert(w[0] == ga(start.u as int, start.v as int));
        assert(w[0] == start);
        assert(w.last() == end);
        if lex_uv_lt(b, a) {
            let r = w.reverse();
            assert(r[0] == w[w.len() - 1]);
            assert(r[r.len() - 1] == w[0]);
        }
    }
}

// ---------------------------------------------------------------------------
// Disks
// ---------------------------------------------------------------------------

/// `a` lies in the filled Euclidean disk of `radius` cells around `center`.
pub open spec fn in_disk(center: GridAddress, radius: int, a: GridAddress) -> bool {
    (a.u - center.u) * (a.u - center.u) + (a.v - center.v) * (a.v - center.v) <= radius * radius
}

/// `a` precedes `b` in row-major `(v, u)` order.
pub open spec fn row_major_lt(a: GridAddress, b: GridAddress) -> bool {
    a.v < b.v || (a.v == b.v && a.u < b.u)
}

/// Strictly increasing in row-major order.
pub open spec fn row_major_sorted(s: Seq<GridAddress>) -> bool {
    forall|i: int, j: int| 0 <= i < j < s.len() ==> row_major_lt(#[trigger] s[i], #[trigger] s[j])
}

/// The disk's bounding square lies within `i32`.
pub open spec fn disk_fits(center: GridAddress, radius: u8) -> bool {
    &&& i32::MIN <= center.u - radius
    &&& center.u + radius < i32::MAX
    &&& i32::MIN <= center.v - radius
    &&& center.v + radius < i32::MAX
}

proof fn lemma_outside_square(d: int, r: int, other: int)
    requires
        r >= 0,
        d < -r || d > r,
    ensures
        d * d + other * other > r * r,
{
    assert(d * d > r * r) by (nonlinear_arith)
        requires
            r >= 0,
            d < -r || d > r;
    assert(other * other >= 0) by (nonlinear_arith);
}

/// Filled grid-local Euclidean disk in row-major order. Radius zero holds
/// only its centre.
pub fn disk_footprint(center: GridAddress, radius: u8) -> (out: Vec<GridAddress>)
    requires
        disk_fits(center, radius),
    ensures
        row_major_sorted(out@),
        forall|a: GridAddress| out@.contains(a) <==> in_disk(center, radius as int, a),
        out@ == disk_spec(center, radius as int),
{
    let r = radius as i32;
    let mut out: Vec<GridAddress> = Vec::new();
    let mut v = center.v - r;
    proof {
        assert forall|a: GridAddress| !(in_disk(center, r as int, a) && a.v < v) by {
            if a.v < v {
                lemma_outside_square(a.v - center.v, r as int, a.u - center.u);
            }
        }
    }
    while v <= center.v + r
        invariant
            disk_fits(center, radius),
            r == radius,
            center.v - r <= v <= center.v + r + 1,
            row_major_sorted(out@),
            forall|k: int| 0 <= k < out@.len() ==> (#[trigger] out@[k]).v < v,
            forall|a: GridAddress| out@.contains(a) <==> (in_disk(center, r as int, a) && a.v < v),
        decreases center.v + r + 1 - v,
    {
        let mut u = center.u - r;
        proof {
            assert forall|a: GridAddress| out@.contains(a) <==> (in_disk(center, r as int, a) && (a.v < v || (a.v == v && a.u < u))) by {
                if a.v == v && a.u < u && in_disk(center, r as int, a) {
                    lemma_outside_square(a.u - center.u, r as int, a.v - center.v);
                }
            }
        }
        while u <= center.u + r
            invariant
                disk_fits(center, radius),
                r == radius,
                center.v - r <= v <= center.v + r,
                center.u - r <= u <= center.u + r + 1,
                row_major_sorted(out@),
                forall|k: int| 0 <= k < out@.len() ==> (#[trigger] out@[k]).v < v || (out@[k].v == v && out@[k].u < u),
                forall|a: GridAddress| out@.contains(a) <==> (in_disk(center, r as int, a) && (a.v < v || (a.v == v && a.u < u))),
            decreases center.u + r + 1 - u,
        {
            let du = u - center.u;
            let dv = v - center.v;
            proof {
                assert(-255 <= du <= 255 && -255 <= dv <= 255);
                assert(0 <= du * du <= 255 * 255) by (nonlinear_arith)
                    requires
                        -255 <= du <= 255;
                assert(0 <= dv * dv <= 255 * 255) by (nonlinear_arith)
                    requires
                        -255 <= dv <= 255;
                assert(r * r <= 255 * 255) by (nonlinear_arith)
                    requires
                        0 <= r <= 255;
            }
            let inside = du * du + dv * dv <= r * r;
            let a = GridAddress { u, v };
            let ghost before = out@;
            if inside {
                out.push(a);
            }
            proof {
                assert forall|b: GridAddress| out@.contains(b) <==> (in_disk(center, r as int, b) && (b.v < v || (b.v == v && b.u < u + 1))) by {
                    if out@.contains(b) && !before.contains(b) {
                        let k = choose|k: int| 0 <= k < out@.len() && out@[k] == b;
                        assert(k == before.len());
                    }
                    if before.contains(b) {
                        let k = choose|k: int| 0 <= k < before.len() && before[k] == b;
                        assert(out@[k] == b);
                    }
                    if b == a && inside {
                        assert(out@[before.len() as int] == b);
                    }
                }
            }
            u = u + 1;
        }
        proof {
            assert forall|a: GridAddress| out@.contains(a) <==> (in_disk(center, r as int, a) && a.v < v + 1) by {
                if a.v == v && in_disk(center, r as int, a) {
                    if a.u < center.u - r || a.u > center.u + r {
                        lemma_outside_square(a.u - center.u, r as int, a.v - center.v);
                    }
                }
            }
        }
        v = v + 1;
    }
    proof {
        assert forall|a: GridAddress| out@.contains(a) <==> in_disk(center, radius as int, a) by {
            if in_disk(center, radius as int, a) && a.v >= v {
                lemma_outside_square(a.v - center.v, radius as int, a.u - center.u);
            }
        }
        let d = disk_spec(center, radius as int);
        lemma_row_major_unique(out@, d);
    }
    out
}

/// The row-major sequence of the disk's cells.
pub open spec fn disk_spec(center: GridAddress, radius: int) -> Seq<GridAddress> {
    choose|s: Seq<GridAddress>| row_major_sorted(s) && forall|a: GridAddress| s.contains(a) <==> in_disk(center, radius, a)
}

/// Two strictly row-major sorted sequences with the same elements are equal.
proof fn lemma_row_major_unique(s: Seq<GridAddress>, t: Seq<GridAddress>)
    requires
        row_major_sorted(s),
        row_major_sorted(t),
        forall|a: GridAddress| s.contains(a) <==> t.contains(a),
    ensures
        s == t,
    decreases s.len(),
{
    if s.len() == 0 {
        if t.len() > 0 {
            assert(t.contains(t[0]));
        }
        assert(s =~= t);
    } else {
        assert(s.contains(s[0]));
        assert(t.len() > 0);
        assert(t.contains(t[0]));
        let i = choose|i: int| 0 <= i < t.len() && t[i] == s[0];
        let j = choose|j: int| 0 <= j < s.len() && s[j] == t[0];
        if i > 0 {
            assert(row_major_lt(t[0], t[i]));
            if j > 0 {
                assert(row_major_lt(s[0], s[j]));
            }
        }
        assert(s[0] == t[0]);
        let s1 = s.drop_first();
        let t1 = t.drop_first();
        assert forall|a: GridAddress| s1.contains(a) <==> t1.contains(a) by {
            if s1.contains(a) {
                let k = choose|k: int| 0 <= k < s1.len() && s1[k] == a;
                assert(s[k + 1] == a);
                assert(row_major_lt(s[0], s[k + 1]));
                assert(t.contains(a));
                let m = choose|m: int| 0 <= m < t.len() && t[m] == a;
                assert(m != 0);
                assert(t1[m - 1] == a);
            }
            if t1.contains(a) {
                let k = choose|k: int| 0 <= k < t1.len() && t1[k] == a;
                assert(t[k + 1] == a);
                assert(row_major_lt(t[0], t[k + 1]));
                assert(s.contains(a));
                let m = choose|m: int| 0 <= m < s.len() && s[m] == a;
                assert(m != 0);
                assert(s1[m - 1] == a);
            }
        }
        assert(row_major_sorted(s1)) by {
            assert forall|x: int, y: int| 0 <= x < y < s1.len() implies row_major_lt(#[trigger] s1[x], #[trigger] s1[y]) by {
                assert(s1[x] == s[x + 1] && s1[y] == s[y + 1]);
            }
        }
        assert(row_major_sorted(t1)) by {
            assert forall|x: int, y: int| 0 <= x < y < t1.len() implies row_major_lt(#[trigger] t1[x], #[trigger] t1[y]) by {
                assert(t1[x] == t[x + 1] && t1[y] == t[y + 1]);
            }
        }
        lemma_row_major_unique(s1, t1);
        assert(s =~= seq![s[0]] + s1);
        assert(t =~= seq![t[0]] + t1);
    }
}

/// Paint gesture tools.
#[derive(Debug, Clone, Copy, PartialEq, Eq, Structural)]
pub enum GridGestureTool {
    FreeDraw,
    Line,
    Spray,
}

/// The addresses of `cands` inside the grid domain, not in `emitted`, and
/// not repeated, in order.
pub open spec fn fresh_targets(cands: Seq<GridAddress>, size_x: u32, size_z: u32, emitted: Seq<GridAddress>) -> Seq<GridAddress>
    decreases cands.len(),
{
    if cands.len() == 0 {
        Seq::empty()
    } else {
        let f = fresh_targets(cands.drop_last(), size_x, size_z, emitted);
        let c = cands.last();
        if in_domain(size_x, size_z, c) && !emitted.contains(c) && !f.contains(c) {
            f.push(c)
        } else {
            f
        }
    }
}

/// A fresh target is exactly a candidate inside the grid that was not
/// emitted before.
proof fn lemma_fresh_targets_contains(cands: Seq<GridAddress>, size_x: u32, size_z: u32, emitted: Seq<GridAddress>)
    ensures
        forall|a: GridAddress| #[trigger] fresh_targets(cands, size_x, size_z, emitted).contains(a)
            <==> (cands.contains(a) && in_domain(size_x, size_z, a) && !emitted.contains(a)),
    decreases cands.len(),
{
    if cands.len() > 0 {
        let init = cands.drop_last();
        let c = cands.last();
        lemma_fresh_targets_contains(init, size_x, size_z, emitted);
        let f = fresh_targets(init, size_x, size_z, emitted);
        assert(cands =~= init.push(c));
        assert forall|a: GridAddress| #[trigger] fresh_targets(cands, size_x, size_z, emitted).contains(a)
            <==> (cands.contains(a) && in_domain(size_x, size_z, a) && !emitted.contains(a)) by {
            let res = fresh_targets(cands, size_x, size_z, emitted);
            if cands.contains(a) {
                let k = choose|k: int| 0 <= k < cands.len() && cands[k] == a;
                if k < init.len() {
                    assert(init[k] == a);
                    assert(init.contains(a));
                }
            }
            if init.contains(a) {
                let k = choose|k: int| 0 <= k < init.len() && init[k] == a;
                assert(cands[k] == a);
            }
            assert(cands[cands.len() - 1] == c);
            if in_domain(size_x, size_z, c) && !emitted.contains(c) && !f.contains(c) {
                assert(res == f.push(c));
                assert(res[f.len() as int] == c);
                if res.contains(a) && a != c {
                    let k = choose|k: int| 0 <= k < res.len() && res[k] == a;
                    assert(f[k] == a);
                }
                if f.contains(a) {
                    let k = choose|k: int| 0 <= k < f.len() && f[k] == a;
                    assert(res[k] == a);
                }
            }
        }
    }
}

/// The addresses of `cands` inside the grid domain, in order.
pub open spec fn in_domain_targets(cands: Seq<GridAddress>, size_x: u32, size_z: u32) -> Seq<GridAddress>
    decreases cands.len(),
{
    if cands.len() == 0 {
        Seq::empty()
    } else {
        let f = in_domain_targets(cands.drop_last(), size_x, size_z);
        if in_domain(size_x, size_z, cands.last()) {
            f.push(cands.last())
        } else {
            f
        }
    }
}

proof fn lemma_concat_contains(a: Seq<GridAddress>, b: Seq<GridAddress>)
    ensures
        forall|x: GridAddress| (a + b).contains(x) <==> (a.contains(x) || b.contains(x)),
{
    assert forall|x: GridAddress| (a + b).contains(x) <==> (a.contains(x) || b.contains(x)) by {
        if (a + b).contains(x) {
            let k = choose|k: int| 0 <= k < (a + b).len() && (a + b)[k] == x;
            if k >= a.len() {
                assert(b[k - a.len()] == x);
            } else {
                assert(a[k] == x);
            }
        }
        if b.contains(x) {
            let k = choose|k: int| 0 <= k < b.len() && b[k] == x;
            assert((a + b)[k + a.len()] == x);
        }
        if a.contains(x) {
            let k = choose|k: int| 0 <= k < a.len() && a[k] == x;
            assert((a + b)[k] == x);
        }
    }
}

/// The disk's cells of row `v` from column `u` on, `n` columns wide.
pub open spec fn disk_row(c: GridAddress, r: int, v: int, u: int, n: nat) -> Seq<GridAddress>
    decreases n,
{
    if n == 0 {
        Seq::empty()
    } else {
        let rest = disk_row(c, r, v, u + 1, (n - 1) as nat);
        if in_disk(c, r, ga(u, v)) { seq![ga(u, v)] + rest } else { rest }
    }
}

/// The disk's cells of `n` rows from row `v` on, row by row.
pub open spec fn disk_rows(c: GridAddress, r: int, v: int, n: nat) -> Seq<GridAddress>
    decreases n,
{
    if n == 0 {
        Seq::empty()
    } else {
        disk_row(c, r, v, c.u - r, (2 * r + 1) as nat) + disk_rows(c, r, v + 1, (n - 1) as nat)
    }
}

proof fn lemma_disk_row(c: GridAddress, r: int, v: int, u: int, n: nat)
    requires
        in_i32(v),
        n == 0 || (in_i32(u) && in_i32(u + n - 1)),
    ensures
        forall|a: GridAddress| #[trigger] disk_row(c, r, v, u, n).contains(a) <==> (a.v == v && u <= a.u < u + n && in_disk(c, r, a)),
        forall|i: int| 0 <= i < disk_row(c, r, v, u, n).len() ==> #[trigger] disk_row(c, r, v, u, n)[i].v == v
            && disk_row(c, r, v, u, n)[i].u >= u,
        row_major_sorted(disk_row(c, r, v, u, n)),
    decreases n,
{
    if n > 0 {
        let rest = disk_row(c, r, v, u + 1, (n - 1) as nat);
        lemma_disk_row(c, r, v, u + 1, (n - 1) as nat);
        let g = ga(u, v);
        assert(g.u == u && g.v == v);
        let row = disk_row(c, r, v, u, n);
        if in_disk(c, r, g) {
            assert(row =~= seq![g] + rest);
            assert forall|a: GridAddress| row.contains(a) <==> (a.v == v && u <= a.u < u + n && in_disk(c, r, a)) by {
                if a == g {
                    assert(row[0] == g);
                    assert(row.contains(a));
                } else {
                    if row.contains(a) {
                        let k = choose|k: int| 0 <= k < row.len() && row[k] == a;
                        assert(k > 0);
                        assert(rest[k - 1] == a);
                        assert(rest.contains(a));
                    }
                    if a.v == v && u <= a.u < u + n && in_disk(c, r, a) {
                        assert(a.u != u);
                        assert(rest.contains(a));
                        let k = choose|k: int| 0 <= k < rest.len() && rest[k] == a;
                        assert(row[k + 1] == a);
                        assert(row.contains(a));
                    }
                }
            }
            assert forall|i: int| 0 <= i < row.len() implies #[trigger] row[i].v == v && row[i].u >= u by {
                if i > 0 {
                    assert(row[i] == rest[i - 1]);
                }
            }
            assert forall|i: int, j: int| 0 <= i < j < row.len() implies row_major_lt(#[trigger] row[i], #[trigger] row[j]) by {
                assert(row[j] == rest[j - 1]);
                if i > 0 {
                    assert(row[i] == rest[i - 1]);
                }
            }
        } else {
            assert(row == rest);
            assert forall|a: GridAddress| row.contains(a) <==> (a.v == v && u <= a.u < u + n && in_disk(c, r, a)) by {
                if a.v == v && a.u == u {
                    assert(a == g);
                }
                if rest.contains(a) {
                    assert(a.u >= u + 1);
                }
            }
        }
    }
}

proof fn lemma_disk_rows(c: GridAddress, r: int, v: int, n: nat)
    requires
        r >= 0,
        in_i32(c.u - r),
        in_i32(c.u + r),
        n == 0 || (in_i32(v) && in_i32(v + n - 1)),
    ensures
        forall|a: GridAddress| #[trigger] disk_rows(c, r, v, n).contains(a) <==> (v <= a.v < v + n && c.u - r <= a.u <= c.u + r && in_disk(c, r, a)),
        forall|i: int| 0 <= i < disk_rows(c, r, v, n).len() ==> #[trigger] disk_rows(c, r, v, n)[i].v >= v,
        row_major_sorted(disk_rows(c, r, v, n)),
    decreases n,
{
    if n > 0 {
        let row = disk_row(c, r, v, c.u - r, (2 * r + 1) as nat);
        let rest = disk_rows(c, r, v + 1, (n - 1) as nat);
        lemma_disk_row(c, r, v, c.u - r, (2 * r + 1) as nat);
        lemma_disk_rows(c, r, v + 1, (n - 1) as nat);
        let all = disk_rows(c, r, v, n);
        assert(all =~= row + rest);
        assert forall|a: GridAddress| all.contains(a) <==> (v <= a.v < v + n && c.u - r <= a.u <= c.u + r && in_disk(c, r, a)) by {
            if all.contains(a) {
                let k = choose|k: int| 0 <= k < all.len() && all[k] == a;
                if k < row.len() {
                    assert(row[k] == a);
                    assert(row.contains(a));
                } else {
                    assert(rest[k - row.len()] == a);
                    assert(rest.contains(a));
                }
            }
            if v <= a.v < v + n && c.u - r <= a.u <= c.u + r && in_disk(c, r, a) {
                if a.v == v {
                    assert(a.u < c.u - r + (2 * r + 1));
                    assert(row.contains(a));
                    let k = choose|k: int| 0 <= k < row.len() && row[k] == a;
                    assert(all[k] == a);
                } else {
                    assert(rest.contains(a));
                    let k = choose|k: int| 0 <= k < rest.len() && rest[k] == a;
                    assert(all[k + row.len()] == a);
                }
            }
        }
        assert forall|i: int| 0 <= i < all.len() implies #[trigger] all[i].v >= v by {
            if i < row.len() {
                assert(all[i] == row[i]);
            } else {
                assert(all[i] == rest[i - row.len()]);
            }
        }
        assert forall|i: int, j: int| 0 <= i < j < all.len() implies row_major_lt(#[trigger] all[i], #[trigger] all[j]) by {
            if j < row.len() {
                assert(all[i] == row[i] && all[j] == row[j]);
            } else if i < row.len() {
                assert(all[i] == row[i] && all[j] == rest[j - row.len()]);
                assert(row[i].v == v);
                assert(rest[j - row.len()].v >= v + 1);
            } else {
                assert(all[i] == rest[i - row.len()] && all[j] == rest[j - row.len()]);
            }
        }
    }
}

/// The spray tool proposes exactly the filled disk of radius `brush` around
/// the current cell: every cell within that Euclidean distance and no
/// other, in row-major order.
pub proof fn spray_candidates_are_the_brush_disk(from: GridAddress, start: GridAddress, current: GridAddress, brush: u8)
    requires
        disk_fits(current, brush),
    ensures
        forall|a: GridAddress| tool_candidates(GridGestureTool::Spray, from, start, current, brush).contains(a)
            <==> (a.u - current.u) * (a.u - current.u) + (a.v - current.v) * (a.v - current.v) <= brush * brush,
        row_major_sorted(tool_candidates(GridGestureTool::Spray, from, start, current, brush)),
{
    let r = brush as int;
    let w = disk_rows(current, r, current.v - r, (2 * r + 1) as nat);
    lemma_disk_rows(current, r, current.v - r, (2 * r + 1) as nat);
    assert forall|a: GridAddress| w.contains(a) <==> in_disk(current, r, a) by {
        if in_disk(current, r, a) {
            if a.u - current.u < -r || a.u - current.u > r {
                lemma_outside_square(a.u - current.u, r, a.v - current.v);
            }
            if a.v - current.v < -r || a.v - current.v > r {
                lemma_outside_square(a.v - current.v, r, a.u - current.u);
            }
        }
    }
    assert(row_major_sorted(w) && forall|a: GridAddress| w.contains(a) <==> in_disk(current, r, a));
}

/// The candidate cells a tool proposes for a gesture at `current`.
pub open spec fn tool_candidates(
    tool: GridGestureTool,
    from: GridAddress,
    start: GridAddress,
    current: GridAddress,
    brush: u8,
) -> Seq<GridAddress> {
    match tool {
        GridGestureTool::FreeDraw => supercover_spec(from, current),
        GridGestureTool::Line => thin_line_spec(start, current),
        GridGestureTool::Spray => disk_spec(current, brush as int),
    }
}

/// The tool's arithmetic stays within `i32` for this gesture step.
pub open spec fn tool_fits(tool: GridGestureTool, from: GridAddress, start: GridAddress, current: GridAddress, brush: u8) -> bool {
    match tool {
        GridGestureTool::FreeDraw => supercover_fits(from, current),
        GridGestureTool::Line => span_fits(start, current),
        GridGestureTool::Spray => disk_fits(current, brush),
    }
}

/// One in-progress paint stroke on a captured grid.
#[derive(Debug, Clone)]
pub struct GridGestureSession {
    pub pointer: ComponentId,
    pub grid: CapturedGrid,
    pub tool: GridGestureTool,
    pub brush_size: u8,
    pub start: GridAddress,
    pub current: GridAddress,
    /// Every address emitted so far, in emission order.
    pub emitted: Vec<GridAddress>,
}

impl GridGestureSession {
    pub open spec fn emitted_spec(&self) -> Seq<GridAddress> {
        self.emitted@
    }

    /// A session never emits an address twice.
    pub open spec fn wf(&self) -> bool {
        self.emitted@.no_duplicates()
    }

    pub fn new(pointer: ComponentId, grid: CapturedGrid, tool: GridGestureTool, brush_size: u8, start: GridAddress) -> (session: Self)
        ensures
            session.wf(),
            session.pointer == pointer,
            session.grid == grid,
            session.tool == tool,
            session.brush_size == if brush_size < 8 { brush_size } else { 8 },
            session.start == start,
            session.current == start,
            session.emitted_spec() == Seq::<GridAddress>::empty(),
    {
        GridGestureSession {
            pointer,
            grid,
            tool,
            brush_size: if brush_size < 8 { brush_size } else { 8 },
            start,
            current: start,
            emitted: Vec::new(),
        }
    }

    fn candidates(tool: GridGestureTool, from: GridAddress, start: GridAddress, current: GridAddress, brush: u8) -> (c: Vec<GridAddress>)
        requires
            tool_fits(tool, from, start, current, brush),
        ensures
            c@ == tool_candidates(tool, from, start, current, brush),
    {
        match tool {
            GridGestureTool::FreeDraw => supercover_path(from, current),
            GridGestureTool::Line => thin_line_path(start, current),
            GridGestureTool::Spray => disk_footprint(current, brush),
        }
    }

    /// Moves the gesture to `current` and returns the newly painted cells:
    /// the tool's candidates inside the grid that this stroke has not
    /// emitted before.
    pub fn update(&mut self, current: GridAddress) -> (targets: Vec<GridAddress>)
        requires
            old(self).wf(),
            tool_fits(old(self).tool, old(self).current, old(self).start, current, old(self).brush_size),
        ensures
            final(self).wf(),
            final(self).current == current,
            final(self).pointer == old(self).pointer,
            final(self).grid == old(self).grid,
            final(self).tool == old(self).tool,
            final(self).brush_size == old(self).brush_size,
            final(self).start == old(self).start,
            targets@ == fresh_targets(
                tool_candidates(old(self).tool, old(self).current, old(self).start, current, old(self).brush_size),
                old(self).grid.size_x,
                old(self).grid.size_z,
                old(self).emitted_spec(),
            ),
            final(self).emitted_spec() == old(self).emitted_spec() + targets@,
            targets@.no_duplicates(),
            forall|a: GridAddress| targets@.contains(a) ==> !old(self).emitted_spec().contains(a),
            old(self).tool == GridGestureTool::Spray ==> forall|a: GridAddress| #[trigger] targets@.contains(a) <==> (
                in_domain(old(self).grid.size_x, old(self).grid.size_z, a)
                && !old(self).emitted_spec().contains(a)
                && (a.u - current.u) * (a.u - current.u) + (a.v - current.v) * (a.v - current.v)
                    <= old(self).brush_size * old(self).brush_size),
    {
        proof {
            if old(self).tool == GridGestureTool::Spray {
                spray_candidates_are_the_brush_disk(old(self).current, old(self).start, current, old(self).brush_size);
            }
            lemma_fresh_targets_contains(
                tool_candidates(old(self).tool, old(self).current, old(self).start, current, old(self).brush_size),
                old(self).grid.size_x,
                old(self).grid.size_z,
                old(self).emitted_spec(),
            );
        }
        let previous = self.current;
        self.current = current;
        let cands = Self::candidates(self.tool, previous, self.start, current, self.brush_size);
        let ghost e0 = self.emitted@;
        let mut out: Vec<GridAddress> = Vec::new();
        let mut i: usize = 0;
        while i < cands.len()
            invariant
                i <= cands@.len(),
                out@ == fresh_targets(cands@.subrange(0, i as int), self.grid.size_x, self.grid.size_z, e0),
                self.emitted@ == e0 + out@,
                self.emitted@.no_duplicates(),
                forall|a: GridAddress| out@.contains(a) ==> !e0.contains(a),
                self.current == current,
                self.pointer == old(self).pointer,
                self.grid == old(self).grid,
                self.tool == old(self).tool,
                self.brush_size == old(self).brush_size,
                self.start == old(self).start,
                e0 == old(self).emitted@,
            decreases cands@.len() - i,
        {
            let c = cands[i];
            proof {
                assert(cands@.subrange(0, i + 1).drop_last() =~= cands@.subrange(0, i as int));
                lemma_concat_contains(e0, out@);
            }
            if GridSystem::address_in_domain(&self.grid, c) && !contains_address(&self.emitted, c) {
                let ghost before_e = self.emitted@;
                let ghost before_o = out@;
                self.emitted.push(c);
                out.push(c);
                proof {
                    assert(self.emitted@ =~= e0 + out@);
                    assert forall|x: int, y: int| 0 <= x < y < self.emitted@.len() implies self.emitted@[x] != self.emitted@[y] by {
                        if y == before_e.len() {
                            assert(before_e.contains(before_e[x]));
                        } else {
                            assert(before_e[x] == self.emitted@[x] && before_e[y] == self.emitted@[y]);
                        }
                    }
                    assert forall|a: GridAddress| out@.contains(a) implies !e0.contains(a) by {
                        if a != c {
                            let k = choose|k: int| 0 <= k < out@.len() && out@[k] == a;
                            assert(before_o[k] == a);
                        }
                    }
                }
            }
            i = i + 1;
        }
        proof {
            assert(cands@.subrange(0, cands@.len() as int) =~= cands@);
            assert forall|x: int, y: int| 0 <= x < y < out@.len() implies out@[x] != out@[y] by {
                assert(self.emitted@[e0.len() + x] == out@[x] && self.emitted@[e0.len() + y] == out@[y]);
            }
        }
        out
    }

    /// The complete, non-deduplicated current preview target. The line tool
    /// uses it to reconcile previews when its endpoint changes or reverses.
    pub fn current_targets(&self) -> (targets: Vec<GridAddress>)
        requires
            tool_fits(self.tool, self.start, self.start, self.current, self.brush_size),
        ensures
            targets@ == in_domain_targets(
                tool_candidates(self.tool, self.start, self.start, self.current, self.brush_size),
                self.grid.size_x,
                self.grid.size_z,
            ),
    {
        let cands = Self::candidates(self.tool, self.start, self.start, self.current, self.brush_size);
        let mut out: Vec<GridAddress> = Vec::new();
        let mut i: usize = 0;
        while i < cands.len()
            invariant
                i <= cands@.len(),
                out@ == in_domain_targets(cands@.subrange(0, i as int), self.grid.size_x, self.grid.size_z),
            decreases cands@.len() - i,
        {
            let c = cands[i];
            proof {
                assert(cands@.subrange(0, i + 1).drop_last() =~= cands@.subrange(0, i as int));
            }
            if GridSystem::address_in_domain(&self.grid, c) {
                out.push(c);
            }
            i = i + 1;
        }
        proof {
            assert(cands@.subrange(0, cands@.len() as int) =~= cands@);
        }
        out
    }
}

} // verus!
