use vstd::prelude::*;
use itertools::Itertools;
use crate::buffer::{at, PixelBuffer};
use crate::pixel::{Criterion, Pixel};

verus! {

/// Keys never decrease along `s`.
pub open spec fn sorted_by(s: Seq<Pixel>, c: Criterion) -> bool {
    forall|i: int, j: int|
        0 <= i <= j < s.len() ==> c.key_of(#[trigger] s[i]) <= c.key_of(#[trigger] s[j])
}

/// The pixels of `s` whose key is `k`, in their order in `s`.
pub open spec fn with_key(s: Seq<Pixel>, c: Criterion, k: int) -> Seq<Pixel> {
    s.filter(|p: Pixel| c.key_of(p) == k)
}

/// `out` is `inp` sorted by key, stably: the same pixels, keys non-decreasing,
/// and pixels of equal key in their order in `inp`.
pub open spec fn is_stable_sort(out: Seq<Pixel>, inp: Seq<Pixel>, c: Criterion) -> bool {
    &&& out.len() == inp.len()
    &&& out.to_multiset() == inp.to_multiset()
    &&& sorted_by(out, c)
    &&& forall|k: int| #[trigger] with_key(out, c, k) == with_key(inp, c, k)
}

/// A stable sort has exactly one result: two stable sorts of the same input
/// by the same criterion are equal.
pub proof fn lemma_stable_sort_unique(a: Seq<Pixel>, b: Seq<Pixel>, inp: Seq<Pixel>, c: Criterion)
    requires
        is_stable_sort(a, inp, c),
        is_stable_sort(b, inp, c),
    ensures
        a == b,
{
    lemma_sorted_same_keys_equal(a, b, c);
}

/// Sequences that are sorted by key and hold the same pixels of each key, in
/// the same order, are equal.
proof fn lemma_sorted_same_keys_equal(a: Seq<Pixel>, b: Seq<Pixel>, c: Criterion)
    requires
        a.len() == b.len(),
        sorted_by(a, c),
        sorted_by(b, c),
        forall|k: int| #[trigger] with_key(a, c, k) == with_key(b, c, k),
    ensures
        a == b,
    decreases a.len(),
{
    reveal(Seq::filter);
    if a.len() == 0 {
        assert(a =~= b);
    } else {
        let n = a.len() - 1;
        let (la, lb) = (a[n], b[n]);
        let (ka, kb) = (c.key_of(la), c.key_of(lb));
        assert(with_key(a, c, ka) == with_key(a.drop_last(), c, ka).push(la));
        assert(with_key(b, c, kb) == with_key(b.drop_last(), c, kb).push(lb));
        if ka > kb {
            lemma_no_key_above(b, c, ka);
            assert(with_key(a, c, ka) == with_key(b, c, ka));
        } else if kb > ka {
            lemma_no_key_above(a, c, kb);
            assert(with_key(a, c, kb) == with_key(b, c, kb));
        }
        assert(with_key(a, c, ka) == with_key(b, c, ka));
        assert(la == with_key(a, c, ka).last());
        let (da, db) = (a.drop_last(), b.drop_last());
        assert forall|k: int| #[trigger] with_key(da, c, k) == with_key(db, c, k) by {
            assert(with_key(a, c, k) == with_key(b, c, k));
            if k == ka {
                assert(with_key(da, c, k) =~= with_key(a, c, k).drop_last());
                assert(with_key(db, c, k) =~= with_key(b, c, k).drop_last());
            }
        }
        assert forall|i: int, j: int| 0 <= i <= j < da.len() implies c.key_of(#[trigger] da[i])
            <= c.key_of(#[trigger] da[j]) by {
            assert(da[i] == a[i] && da[j] == a[j]);
        }
        assert forall|i: int, j: int| 0 <= i <= j < db.len() implies c.key_of(#[trigger] db[i])
            <= c.key_of(#[trigger] db[j]) by {
            assert(db[i] == b[i] && db[j] == b[j]);
        }
        lemma_sorted_same_keys_equal(da, db, c);
        assert(a =~= da.push(la));
        assert(b =~= db.push(lb));
    }
}

/// A sequence sorted by key whose keys all lie below `k` holds nothing of
/// key `k`.
proof fn lemma_no_key_above(s: Seq<Pixel>, c: Criterion, k: int)
    requires
        sorted_by(s, c),
        s.len() > 0,
        c.key_of(s.last()) < k,
    ensures
        with_key(s, c, k).len() == 0,
{
    assert forall|i: int| 0 <= i < s.len() implies c.key_of(#[trigger] s[i]) < k by {
        assert(c.key_of(s[i]) <= c.key_of(s[s.len() - 1]));
    }
    lemma_keys_below(s, c, k);
}

proof fn lemma_keys_below(s: Seq<Pixel>, c: Criterion, k: int)
    requires
        forall|i: int| 0 <= i < s.len() ==> c.key_of(#[trigger] s[i]) < k,
    ensures
        with_key(s, c, k).len() == 0,
    decreases s.len(),
{
    reveal(Seq::filter);
    if s.len() > 0 {
        let d = s.drop_last();
        assert forall|i: int| 0 <= i < d.len() implies c.key_of(#[trigger] d[i]) < k by {
            assert(d[i] == s[i]);
        }
        lemma_keys_below(d, c, k);
    }
}

/// Relies on itertools' `Itertools::sorted_by_key`, which collects the items
/// into a `Vec` and sorts it with std's `sort_by_key`, a stable sort.
#[verifier::external_body]
fn sorted_by_key(pixels: Vec<Pixel>, c: Criterion) -> (r: Vec<Pixel>)
    ensures
        is_stable_sort(r@, pixels@, c),
{
    pixels.into_iter().sorted_by_key(|p| c.key(p)).collect()
}

/// Sorts the whole image: its pixels, taken in row-major order, are stably
/// sorted by key and laid out again row-major in a buffer of the same size.
pub fn basic_sort(buf: &PixelBuffer, crit: Criterion) -> (r: PixelBuffer)
    requires
        buf.wf(),
    ensures
        r.wf(),
        r.width == buf.width,
        r.height == buf.height,
        r.pixels@.to_multiset() == buf.pixels@.to_multiset(),
        sorted_by(r.pixels@, crit),
        forall|k: int| #[trigger] with_key(r.pixels@, crit, k) == with_key(buf.pixels@, crit, k),
{
    let pixels = copy_pixels(&buf.pixels);
    let sorted = sorted_by_key(pixels, crit);
    PixelBuffer { width: buf.width, height: buf.height, pixels: sorted }
}

fn copy_pixels(v: &Vec<Pixel>) -> (r: Vec<Pixel>)
    ensures
        r@ == v@,
{
    let mut r: Vec<Pixel> = Vec::new();
    let mut i: usize = 0;
    while i < v.len()
        invariant
            i <= v.len(),
            r@ == v@.subrange(0, i as int),
        decreases v.len() - i,
    {
        r.push(v[i]);
        i += 1;
        assert(r@ =~= v@.subrange(0, i as int));
    }
    assert(r@ =~= v@);
    r
}

/// A position inside a `w` × `h` image has a row-major index inside it.
pub proof fn lemma_index_in_bounds(x: int, y: int, w: int, h: int)
    requires
        0 <= x < w,
        0 <= y < h,
    ensures
        0 <= y * w + x < w * h,
{
    assert(0 <= y * w + x < w * h) by (nonlinear_arith)
        requires 0 <= x < w, 0 <= y < h;
}


/// Column `x`, row `y` lies in tile `(tx, ty)` of a grid of `tw` × `th` tiles.
pub open spec fn in_tile(x: int, y: int, tw: int, th: int, tx: int, ty: int) -> bool {
    &&& tx * tw <= x < tx * tw + tw
    &&& ty * th <= y < ty * th + th
}

/// The pixels of tile `(tx, ty)`, `tw` × `th` in size, of a row-major image of
/// width `w`, in row-major order within the tile.
pub open spec fn tile_seq(s: Seq<Pixel>, w: int, tw: int, th: int, tx: int, ty: int) -> Seq<
    Pixel,
> {
    Seq::new((tw * th) as nat, |i: int| at(s, w, tx * tw + i % tw, ty * th + i / tw))
}

/// The `i`-th pixel of a tile lies inside that tile, and inside the image,
/// and `i` is its row-major position within the tile.
proof fn lemma_tile_pixel(i: int, w: int, h: int, tw: int, th: int, tx: int, ty: int)
    requires
        0 <= i < tw * th,
        0 <= tw,
        0 <= th,
        0 <= tx,
        0 <= ty,
        tx * tw + tw <= w,
        ty * th + th <= h,
    ensures
        tw > 0,
        in_tile(tx * tw + i % tw, ty * th + i / tw, tw, th, tx, ty),
        0 <= tx * tw + i % tw < w,
        0 <= ty * th + i / tw < h,
        (i / tw) * tw + i % tw == i,
{
    assert(tw > 0) by (nonlinear_arith)
        requires 0 <= i < tw * th, 0 <= tw, 0 <= th;
    vstd::arithmetic::div_mod::lemma_fundamental_div_mod(i, tw);
    vstd::arithmetic::div_mod::lemma_mod_bound(i, tw);
    assert(0 <= i / tw < th) by (nonlinear_arith)
        requires 0 <= i < tw * th, tw > 0, i == tw * (i / tw) + i % tw, 0 <= i % tw < tw;
    assert((i / tw) * tw + i % tw == i) by (nonlinear_arith)
        requires i == tw * (i / tw) + i % tw;
    assert(0 <= tx * tw) by (nonlinear_arith)
        requires 0 <= tx, 0 <= tw;
    assert(0 <= ty * th) by (nonlinear_arith)
        requires 0 <= ty, 0 <= th;
}

/// Positions inside the image with equal row-major index are equal.
proof fn lemma_index_injective(x1: int, y1: int, x2: int, y2: int, w: int)
    requires
        0 <= x1 < w,
        0 <= x2 < w,
        0 <= y1,
        0 <= y2,
        y1 * w + x1 == y2 * w + x2,
    ensures
        x1 == x2,
        y1 == y2,
{
    if y1 < y2 {
        assert(y1 * w + w <= y2 * w) by (nonlinear_arith)
            requires y1 < y2, 0 < w;
    } else if y2 < y1 {
        assert(y2 * w + w <= y1 * w) by (nonlinear_arith)
            requires y2 < y1, 0 < w;
    }
}

/// A position lies in at most one tile.
proof fn lemma_tiles_disjoint(x: int, y: int, tw: int, th: int, tx1: int, ty1: int, tx2: int, ty2: int)
    requires
        in_tile(x, y, tw, th, tx1, ty1),
        in_tile(x, y, tw, th, tx2, ty2),
    ensures
        tx1 == tx2,
        ty1 == ty2,
{
    lemma_interval_unique(x, tw, tx1, tx2);
    lemma_interval_unique(y, th, ty1, ty2);
}

proof fn lemma_interval_unique(x: int, t: int, a: int, b: int)
    requires
        a * t <= x < a * t + t,
        b * t <= x < b * t + t,
    ensures
        a == b,
{
    if a < b {
        assert(a * t + t <= b * t) by (nonlinear_arith)
            requires a < b, 0 < a * t + t - a * t;
    } else if b < a {
        assert(b * t + t <= a * t) by (nonlinear_arith)
            requires b < a, 0 < b * t + t - b * t;
    }
}

/// Tile `(tx, ty)` of a `cols` × `rows` grid lies inside the part that the
/// grid covers, which lies inside the image.
proof fn lemma_tile_in_grid(tx: int, ty: int, cols: int, rows: int, w: int, h: int)
    requires
        0 <= tx < cols,
        0 <= ty < rows,
        0 <= w,
        0 <= h,
    ensures
        0 <= tx * (w / cols),
        0 <= ty * (h / rows),
        tx * (w / cols) + w / cols <= cols * (w / cols) <= w,
        ty * (h / rows) + h / rows <= rows * (h / rows) <= h,
{
    let (tw, th) = (w / cols, h / rows);
    vstd::arithmetic::div_mod::lemma_fundamental_div_mod(w, cols);
    vstd::arithmetic::div_mod::lemma_fundamental_div_mod(h, rows);
    vstd::arithmetic::div_mod::lemma_mod_bound(w, cols);
    vstd::arithmetic::div_mod::lemma_mod_bound(h, rows);
    assert(0 <= tw) by (nonlinear_arith)
        requires 0 <= w, 0 < cols, tw == w / cols;
    assert(0 <= th) by (nonlinear_arith)
        requires 0 <= h, 0 < rows, th == h / rows;
    assert(0 <= tx * tw && tx * tw + tw <= cols * tw) by (nonlinear_arith)
        requires 0 <= tx < cols, 0 <= tw;
    assert(0 <= ty * th && ty * th + th <= rows * th) by (nonlinear_arith)
        requires 0 <= ty < rows, 0 <= th;
}

/// The tiles of a grid and the part that it does not cover together make up
/// the whole image: two images that agree on both are equal.
pub proof fn lemma_grid_determines(s1: Seq<Pixel>, s2: Seq<Pixel>, w: int, h: int, rows: int, cols: int)
    requires
        0 <= w,
        0 <= h,
        0 < rows,
        0 < cols,
        s1.len() == w * h,
        s2.len() == w * h,
        forall|tx: int, ty: int|
            0 <= tx < cols && 0 <= ty < rows ==> #[trigger] grid_tile(s1, w, h, rows, cols, tx, ty)
                == grid_tile(s2, w, h, rows, cols, tx, ty),
        forall|x: int, y: int|
            0 <= x < w && 0 <= y < h && !grid_covers(w, h, rows, cols, x, y) ==> #[trigger] at(
                s1,
                w,
                x,
                y,
            ) == at(s2, w, x, y),
    ensures
        s1 == s2,
{
    let (tw, th) = (w / cols, h / rows);
    assert forall|j: int| 0 <= j < s1.len() implies s1[j] == s2[j] by {
        assert(w > 0) by (nonlinear_arith)
            requires 0 <= j < w * h, 0 <= h;
        let (x, y) = (j % w, j / w);
        vstd::arithmetic::div_mod::lemma_fundamental_div_mod(j, w);
        vstd::arithmetic::div_mod::lemma_mod_bound(j, w);
        assert(0 <= y < h) by (nonlinear_arith)
            requires 0 <= j < w * h, w > 0, j == w * y + x, 0 <= x < w;
        assert(y * w + x == j) by (nonlinear_arith)
            requires j == w * y + x;
        if grid_covers(w, h, rows, cols, x, y) {
            assert(tw > 0 && th > 0) by (nonlinear_arith)
                requires 0 <= x < cols * tw, 0 <= y < rows * th, 0 < cols, 0 < rows;
            let (tx, ty) = (x / tw, y / th);
            let (dx, dy) = (x % tw, y % th);
            vstd::arithmetic::div_mod::lemma_fundamental_div_mod(x, tw);
            vstd::arithmetic::div_mod::lemma_fundamental_div_mod(y, th);
            vstd::arithmetic::div_mod::lemma_mod_bound(x, tw);
            vstd::arithmetic::div_mod::lemma_mod_bound(y, th);
            assert(0 <= tx < cols) by (nonlinear_arith)
                requires 0 <= x < cols * tw, tw > 0, x == tw * tx + dx, 0 <= dx < tw;
            assert(0 <= ty < rows) by (nonlinear_arith)
                requires 0 <= y < rows * th, th > 0, y == th * ty + dy, 0 <= dy < th;
            let i = dy * tw + dx;
            assert(0 <= i < tw * th) by (nonlinear_arith)
                requires 0 <= dx < tw, 0 <= dy < th, i == dy * tw + dx;
            vstd::arithmetic::div_mod::lemma_fundamental_div_mod_converse(i, tw, dy, dx);
            assert(tx * tw + dx == x && ty * th + dy == y) by (nonlinear_arith)
                requires x == tw * tx + dx, y == th * ty + dy;
            assert(grid_tile(s1, w, h, rows, cols, tx, ty)[i] == at(s1, w, x, y));
            assert(grid_tile(s2, w, h, rows, cols, tx, ty)[i] == at(s2, w, x, y));
        }
        assert(at(s1, w, x, y) == at(s2, w, x, y));
    }
    assert(s1 =~= s2);
}

/// Stably sorts tile `(tx, ty)` of `src` by key and writes it into the same
/// tile of `out`; every other position of `out` is left as it was.
fn sort_tile(
    out: &mut Vec<Pixel>,
    src: &Vec<Pixel>,
    w: usize,
    h: usize,
    tw: usize,
    th: usize,
    tx: usize,
    ty: usize,
    crit: Criterion,
)
    requires
        old(out)@.len() == src@.len(),
        src@.len() == w * h,
        tx * tw + tw <= w,
        ty * th + th <= h,
    ensures
        final(out)@.len() == src@.len(),
        is_stable_sort(
            tile_seq(final(out)@, w as int, tw as int, th as int, tx as int, ty as int),
            tile_seq(src@, w as int, tw as int, th as int, tx as int, ty as int),
            crit,
        ),
        forall|x: int, y: int|
            0 <= x < w && 0 <= y < h && !in_tile(x, y, tw as int, th as int, tx as int, ty as int)
                ==> #[trigger] at(final(out)@, w as int, x, y) == at(old(out)@, w as int, x, y),
{
    let ghost (wi, hi, twi, thi, txi, tyi) = (w as int, h as int, tw as int, th as int, tx as int, ty as int);
    let ghost expect = tile_seq(src@, wi, twi, thi, txi, tyi);
    let len = src.len();
    assert(tw * th <= w * h) by (nonlinear_arith)
        requires tw <= w, th <= h;
    let n: usize = tw * th;
    let mut tile: Vec<Pixel> = Vec::new();
    let mut i: usize = 0;
    while i < n
        invariant
            i <= n,
            n == tw * th,
            wi == w,
            len == src@.len(),
            hi == h,
            twi == tw,
            thi == th,
            txi == tx,
            tyi == ty,
            src@.len() == w * h,
            tx * tw + tw <= w,
            ty * th + th <= h,
            expect == tile_seq(src@, wi, twi, thi, txi, tyi),
            tile@ == expect.subrange(0, i as int),
        decreases n - i,
    {
        proof {
            lemma_tile_pixel(i as int, wi, hi, twi, thi, txi, tyi);
        }
        let x = tx * tw + i % tw;
        let y = ty * th + i / tw;
        proof {
            lemma_index_in_bounds(x as int, y as int, wi, hi);
            assert(y * w <= y * w + x);
            assert(y * w + x < len);
        }
        tile.push(src[y * w + x]);
        i += 1;
        assert(tile@ =~= expect.subrange(0, i as int));
    }
    assert(tile@ =~= expect);
    let sorted = sorted_by_key(tile, crit);
    let ghost before = out@;
    i = 0;
    while i < n
        invariant
            i <= n,
            n == tw * th,
            wi == w,
            len == src@.len(),
            hi == h,
            twi == tw,
            thi == th,
            txi == tx,
            tyi == ty,
            sorted@.len() == n,
            out@.len() == src@.len(),
            src@.len() == w * h,
            tx * tw + tw <= w,
            ty * th + th <= h,
            forall|j: int|
                0 <= j < i ==> #[trigger] at(out@, wi, txi * twi + j % twi, tyi * thi + j / twi)
                    == sorted@[j],
            forall|x: int, y: int|
                0 <= x < w && 0 <= y < h && !(in_tile(x, y, twi, thi, txi, tyi) && (y - tyi * thi)
                    * twi + (x - txi * twi) < i) ==> #[trigger] at(out@, wi, x, y) == at(
                    before,
                    wi,
                    x,
                    y,
                ),
        decreases n - i,
    {
        let ghost prev = out@;
        proof {
            lemma_tile_pixel(i as int, wi, hi, twi, thi, txi, tyi);
        }
        let x = tx * tw + i % tw;
        let y = ty * th + i / tw;
        proof {
            lemma_index_in_bounds(x as int, y as int, wi, hi);
            assert(y * w <= y * w + x);
            assert(y * w + x < len);
        }
        out.set(y * w + x, sorted[i]);
        proof {
            assert forall|j: int| 0 <= j < i + 1 implies #[trigger] at(
                out@,
                wi,
                txi * twi + j % twi,
                tyi * thi + j / twi,
            ) == sorted@[j] by {
                if j == i {
                    assert(txi * twi + j % twi == x && tyi * thi + j / twi == y);
                } else {
                    lemma_tile_pixel(j, wi, hi, twi, thi, txi, tyi);
                    let (xj, yj) = (txi * twi + j % twi, tyi * thi + j / twi);
                    lemma_index_in_bounds(xj, yj, wi, hi);
                    if yj * wi + xj == y * w + x {
                        lemma_index_injective(xj, yj, x as int, y as int, wi);
                        assert(j == i);
                    }
                    assert(at(out@, wi, xj, yj) == at(prev, wi, xj, yj));
                }
            }
            assert forall|xx: int, yy: int|
                0 <= xx < w && 0 <= yy < h && !(in_tile(xx, yy, twi, thi, txi, tyi) && (yy - tyi
                    * thi) * twi + (xx - txi * twi) < i + 1) implies #[trigger] at(out@, wi, xx, yy)
                == at(before, wi, xx, yy) by {
                lemma_index_in_bounds(xx, yy, wi, hi);
                if yy * wi + xx == y * w + x {
                    lemma_index_injective(xx, yy, x as int, y as int, wi);
                    assert((yy - tyi * thi) * twi + (xx - txi * twi) == i);
                }
                assert(at(out@, wi, xx, yy) == at(prev, wi, xx, yy));
            }
        }
        i += 1;
    }
    proof {
        let got = tile_seq(out@, wi, twi, thi, txi, tyi);
        assert(got =~= sorted@);
        assert forall|xx: int, yy: int|
            0 <= xx < w && 0 <= yy < h && !in_tile(xx, yy, twi, thi, txi, tyi) implies #[trigger] at(
            out@,
            wi,
            xx,
            yy,
        ) == at(before, wi, xx, yy) by {}
    }
}


/// Rows of tiles in the default grid of the tiled sort.
pub const CHECKER_ROWS: u32 = 100;

/// Columns of tiles in the default grid of the tiled sort.
pub const CHECKER_COLS: u32 = 100;

/// Tile `(tx, ty)` of a `rows` × `cols` grid laid over a `w` × `h` image: its
/// tiles are `w / cols` wide and `h / rows` high.
pub open spec fn grid_tile(s: Seq<Pixel>, w: int, h: int, rows: int, cols: int, tx: int, ty: int) -> Seq<
    Pixel,
> {
    tile_seq(s, w, w / cols, h / rows, tx, ty)
}

/// Column `x`, row `y` lies in some tile of a `rows` × `cols` grid over a
/// `w` × `h` image; the remainder columns on the right and rows at the bottom
/// lie in none.
pub open spec fn grid_covers(w: int, h: int, rows: int, cols: int, x: int, y: int) -> bool {
    x < cols * (w / cols) && y < rows * (h / rows)
}

/// Tile `(tx2, ty2)` has been visited before tile `(tx, ty)`, row by row.
pub open spec fn visited_before(tx2: int, ty2: int, tx: int, ty: int) -> bool {
    ty2 < ty || (ty2 == ty && tx2 < tx)
}

/// Writing one tile of a grid leaves every other tile of it, and the part that
/// the grid does not cover, as it was.
proof fn lemma_other_tiles_kept(
    before: Seq<Pixel>,
    after: Seq<Pixel>,
    w: int,
    h: int,
    rows: int,
    cols: int,
    tx: int,
    ty: int,
)
    requires
        0 <= tx < cols,
        0 <= ty < rows,
        0 <= w,
        0 <= h,
        before.len() == w * h,
        after.len() == w * h,
        forall|x: int, y: int|
            0 <= x < w && 0 <= y < h && !in_tile(x, y, w / cols, h / rows, tx, ty)
                ==> #[trigger] at(after, w, x, y) == at(before, w, x, y),
    ensures
        forall|tx2: int, ty2: int|
            0 <= tx2 < cols && 0 <= ty2 < rows && (tx2 != tx || ty2 != ty) ==> #[trigger] grid_tile(
                after,
                w,
                h,
                rows,
                cols,
                tx2,
                ty2,
            ) == grid_tile(before, w, h, rows, cols, tx2, ty2),
        forall|x: int, y: int|
            0 <= x < w && 0 <= y < h && !grid_covers(w, h, rows, cols, x, y) ==> #[trigger] at(
                after,
                w,
                x,
                y,
            ) == at(before, w, x, y),
{
    let (tw, th) = (w / cols, h / rows);
    lemma_tile_in_grid(tx, ty, cols, rows, w, h);
    assert forall|tx2: int, ty2: int|
        0 <= tx2 < cols && 0 <= ty2 < rows && (tx2 != tx || ty2 != ty) implies #[trigger] grid_tile(
        after,
        w,
        h,
        rows,
        cols,
        tx2,
        ty2,
    ) == grid_tile(before, w, h, rows, cols, tx2, ty2) by {
        lemma_tile_in_grid(tx2, ty2, cols, rows, w, h);
        assert forall|i: int| 0 <= i < tw * th implies #[trigger] grid_tile(after, w, h, rows, cols, tx2, ty2)[i]
            == grid_tile(before, w, h, rows, cols, tx2, ty2)[i] by {
            lemma_tile_pixel(i, w, h, tw, th, tx2, ty2);
            let (x, y) = (tx2 * tw + i % tw, ty2 * th + i / tw);
            if in_tile(x, y, tw, th, tx, ty) {
                lemma_tiles_disjoint(x, y, tw, th, tx, ty, tx2, ty2);
            }
        }
        assert(grid_tile(after, w, h, rows, cols, tx2, ty2) =~= grid_tile(
            before,
            w,
            h,
            rows,
            cols,
            tx2,
            ty2,
        ));
    }
}

/// The tiled sort on a `rows` × `cols` grid: each tile, `width / cols` wide
/// and `height / rows` high, is stably sorted by key within itself, in
/// row-major order; the remainder columns and rows that no tile covers keep
/// their pixels.
pub fn checker_sort_grid(buf: &PixelBuffer, crit: Criterion, rows: u32, cols: u32) -> (r: PixelBuffer)
    requires
        buf.wf(),
        rows > 0,
        cols > 0,
    ensures
        r.wf(),
        r.width == buf.width,
        r.height == buf.height,
        forall|tx: int, ty: int|
            0 <= tx < cols && 0 <= ty < rows ==> is_stable_sort(
                #[trigger] grid_tile(r.pixels@, buf.width as int, buf.height as int, rows as int, cols as int, tx, ty),
                grid_tile(buf.pixels@, buf.width as int, buf.height as int, rows as int, cols as int, tx, ty),
                crit,
            ),
        forall|x: int, y: int|
            0 <= x < buf.width && 0 <= y < buf.height && !grid_covers(
                buf.width as int,
                buf.height as int,
                rows as int,
                cols as int,
                x,
                y,
            ) ==> #[trigger] at(r.pixels@, buf.width as int, x, y) == at(buf.pixels@, buf.width as int, x, y),
{
    let w = buf.width as usize;
    let h = buf.height as usize;
    let rows = rows as usize;
    let cols = cols as usize;
    let tw = w / cols;
    let th = h / rows;
    let ghost (wi, hi, ri, ci) = (w as int, h as int, rows as int, cols as int);
    let ghost src = buf.pixels@;
    let mut out = copy_pixels(&buf.pixels);
    let mut ty: usize = 0;
    while ty < rows
        invariant
            ty <= rows,
            wi == w && hi == h && ri == rows && ci == cols && rows > 0 && cols > 0,
            tw == w / cols && th == h / rows,
            src == buf.pixels@,
            src.len() == w * h,
            out@.len() == src.len(),
            forall|tx2: int, ty2: int|
                0 <= tx2 < cols && 0 <= ty2 < rows && visited_before(tx2, ty2, 0, ty as int)
                    ==> is_stable_sort(
                    #[trigger] grid_tile(out@, wi, hi, ri, ci, tx2, ty2),
                    grid_tile(src, wi, hi, ri, ci, tx2, ty2),
                    crit,
                ),
            forall|tx2: int, ty2: int|
                0 <= tx2 < cols && 0 <= ty2 < rows && !visited_before(tx2, ty2, 0, ty as int)
                    ==> #[trigger] grid_tile(out@, wi, hi, ri, ci, tx2, ty2) == grid_tile(
                    src,
                    wi,
                    hi,
                    ri,
                    ci,
                    tx2,
                    ty2,
                ),
            forall|x: int, y: int|
                0 <= x < w && 0 <= y < h && !grid_covers(wi, hi, ri, ci, x, y) ==> #[trigger] at(
                    out@,
                    wi,
                    x,
                    y,
                ) == at(src, wi, x, y),
        decreases rows - ty,
    {
        let mut tx: usize = 0;
        while tx < cols
            invariant
                tx <= cols,
                ty < rows,
                wi == w && hi == h && ri == rows && ci == cols && rows > 0 && cols > 0,
                tw == w / cols && th == h / rows,
                src == buf.pixels@,
                src.len() == w * h,
                out@.len() == src.len(),
                forall|tx2: int, ty2: int|
                    0 <= tx2 < cols && 0 <= ty2 < rows && visited_before(tx2, ty2, tx as int, ty as int)
                        ==> is_stable_sort(
                        #[trigger] grid_tile(out@, wi, hi, ri, ci, tx2, ty2),
                        grid_tile(src, wi, hi, ri, ci, tx2, ty2),
                        crit,
                    ),
                forall|tx2: int, ty2: int|
                    0 <= tx2 < cols && 0 <= ty2 < rows && !visited_before(tx2, ty2, tx as int, ty as int)
                        ==> #[trigger] grid_tile(out@, wi, hi, ri, ci, tx2, ty2) == grid_tile(
                        src,
                        wi,
                        hi,
                        ri,
                        ci,
                        tx2,
                        ty2,
                    ),
                forall|x: int, y: int|
                    0 <= x < w && 0 <= y < h && !grid_covers(wi, hi, ri, ci, x, y) ==> #[trigger] at(
                        out@,
                        wi,
                        x,
                        y,
                    ) == at(src, wi, x, y),
            decreases cols - tx,
        {
            let ghost before = out@;
            proof {
                lemma_tile_in_grid(tx as int, ty as int, ci, ri, wi, hi);
            }
            sort_tile(&mut out, &buf.pixels, w, h, tw, th, tx, ty, crit);
            proof {
                lemma_other_tiles_kept(before, out@, wi, hi, ri, ci, tx as int, ty as int);
            }
            tx += 1;
        }
        ty += 1;
    }
    PixelBuffer { width: buf.width, height: buf.height, pixels: out }
}

/// The tiled sort on the default grid of `CHECKER_ROWS` × `CHECKER_COLS`
/// tiles.
pub fn checker_sort(buf: &PixelBuffer, crit: Criterion) -> (r: PixelBuffer)
    requires
        buf.wf(),
    ensures
        r.wf(),
        r.width == buf.width,
        r.height == buf.height,
        forall|tx: int, ty: int|
            0 <= tx < CHECKER_COLS && 0 <= ty < CHECKER_ROWS ==> is_stable_sort(
                #[trigger] grid_tile(r.pixels@, buf.width as int, buf.height as int, CHECKER_ROWS as int, CHECKER_COLS as int, tx, ty),
                grid_tile(buf.pixels@, buf.width as int, buf.height as int, CHECKER_ROWS as int, CHECKER_COLS as int, tx, ty),
                crit,
            ),
        forall|x: int, y: int|
            0 <= x < buf.width && 0 <= y < buf.height && !grid_covers(
                buf.width as int,
                buf.height as int,
                CHECKER_ROWS as int,
                CHECKER_COLS as int,
                x,
                y,
            ) ==> #[trigger] at(r.pixels@, buf.width as int, x, y) == at(buf.pixels@, buf.width as int, x, y),
{
    checker_sort_grid(buf, crit, CHECKER_ROWS, CHECKER_COLS)
}

} // verus!
