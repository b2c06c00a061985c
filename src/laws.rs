use vstd::prelude::*;

use vstd::arithmetic::div_mod::{
    lemma_fundamental_div_mod, lemma_fundamental_div_mod_converse, lemma_mod_multiples_vanish,
};

use crate::model::{
    alpha_at, dilated, dilated_region, extract, first_hit, first_hit_from, in_rect, is_opaque,
    lemma_pixel_byte, merged, neighbor, pass, passed_byte, passes, pixel_byte, rect_fits,
    rect_index, total_passes, valid_bpp, write_back,
};
use crate::region::{lemma_rect_byte, lemma_rect_inverse};

verus! {

/// Extracting the rectangle that covers the whole buffer gives the buffer.
proof fn lemma_extract_full(buf: Seq<u8>, w: int, h: int, bpp: int)
    requires
        valid_bpp(bpp),
        w >= 0,
        h >= 0,
        buf.len() == w * h * bpp,
    ensures
        extract(buf, w, bpp, 0, 0, w, h) == buf,
{
    let e = extract(buf, w, bpp, 0, 0, w, h);
    assert forall|j: int| 0 <= j < buf.len() implies e[j] == buf[j] by {
        assert(w * bpp > 0) by (nonlinear_arith)
            requires
                j < w * h * bpp,
                0 <= j,
                bpp > 0,
                h >= 0,
        ;
        lemma_fundamental_div_mod(j, w * bpp);
        assert((0 + j / (w * bpp)) * (w * bpp) + 0 * bpp + j % (w * bpp) == j) by (nonlinear_arith)
            requires
                j == (w * bpp) * (j / (w * bpp)) + j % (w * bpp),
        ;
    }
    assert(e =~= buf);
}

/// Writing back over the rectangle that covers the whole buffer gives what is
/// written.
proof fn lemma_write_back_full(buf: Seq<u8>, w: int, h: int, bpp: int, sub: Seq<u8>)
    requires
        valid_bpp(bpp),
        w >= 0,
        h >= 0,
        buf.len() == w * h * bpp,
        sub.len() == buf.len(),
    ensures
        write_back(buf, w, bpp, 0, 0, w, h, sub) == sub,
{
    let r = write_back(buf, w, bpp, 0, 0, w, h, sub);
    assert forall|i: int| 0 <= i < buf.len() implies r[i] == sub[i] by {
        assert(w * bpp > 0) by (nonlinear_arith)
            requires
                i < w * h * bpp,
                0 <= i,
                bpp > 0,
                h >= 0,
        ;
        lemma_fundamental_div_mod(i, w * bpp);
        let row = i / (w * bpp);
        assert(0 <= row < h) by (nonlinear_arith)
            requires
                i == (w * bpp) * row + i % (w * bpp),
                0 <= i % (w * bpp) < w * bpp,
                0 <= i < w * h * bpp,
                w * bpp > 0,
        ;
        assert(in_rect(w, bpp, 0, 0, w, h, i));
        assert(rect_index(w, bpp, 0, 0, w, i) == i) by (nonlinear_arith)
            requires
                i == (w * bpp) * row + i % (w * bpp),
                row == i / (w * bpp),
        ;
    }
    assert(r =~= sub);
}

/// Dilating the rectangle at `(0, 0)` that spans the whole `w` x `h` buffer is
/// the same as dilating the whole buffer.
pub proof fn lemma_region_full_equivalence(buf: Seq<u8>, w: int, h: int, bpp: int, t: u8, rounds: nat)
    requires
        valid_bpp(bpp),
        w >= 0,
        h >= 0,
        buf.len() == w * h * bpp,
    ensures
        dilated_region(buf, w, bpp, 0, 0, w, h, t, rounds) == dilated(buf, w, h, bpp, t, rounds),
{
    lemma_extract_full(buf, w, h, bpp);
    lemma_write_back_full(buf, w, h, bpp, dilated(buf, w, h, bpp, t, rounds));
}

/// A pass over an image whose pixels are all opaque copies it unchanged.
proof fn lemma_opaque_pass_unchanged(s: Seq<u8>, w: int, h: int, bpp: int, t: u8)
    requires
        valid_bpp(bpp),
        w >= 0,
        h >= 0,
        s.len() == w * h * bpp,
        forall|p: int| 0 <= p < w * h ==> is_opaque(s, bpp, t, p),
    ensures
        pass(s, w, h, bpp, t) == s,
{
    let r = pass(s, w, h, bpp, t);
    assert forall|j: int| 0 <= j < s.len() implies r[j] == s[j] by {
        lemma_fundamental_div_mod(j, bpp);
        let p = j / bpp;
        assert(0 <= p < w * h) by (nonlinear_arith)
            requires
                j == bpp * p + j % bpp,
                0 <= j % bpp < bpp,
                0 <= j < w * h * bpp,
        ;
        lemma_pixel_byte(p, j % bpp, w * h, bpp);
        assert(is_opaque(s, bpp, t, p));
    }
    assert(r =~= s);
}

/// When every pixel of an image is already opaque, any number of passes, and
/// the merge after them, leave every byte as it was.
pub proof fn lemma_opaque_image_unchanged(s: Seq<u8>, w: int, h: int, bpp: int, t: u8, n: nat)
    requires
        valid_bpp(bpp),
        w >= 0,
        h >= 0,
        s.len() == w * h * bpp,
        forall|p: int| 0 <= p < w * h ==> is_opaque(s, bpp, t, p),
    ensures
        passes(s, w, h, bpp, t, n) == s,
        merged(passes(s, w, h, bpp, t, n), s, bpp) == s,
    decreases n,
{
    if n > 0 {
        lemma_opaque_image_unchanged(s, w, h, bpp, t, (n - 1) as nat);
        lemma_opaque_pass_unchanged(s, w, h, bpp, t);
    }
    assert(merged(s, s, bpp) =~= s);
}

/// The fixed pipeline of `rounds` round trips leaves an image whose pixels are
/// all opaque unchanged.
pub proof fn lemma_opaque_image_not_dilated(s: Seq<u8>, w: int, h: int, bpp: int, t: u8, rounds: nat)
    requires
        valid_bpp(bpp),
        w >= 0,
        h >= 0,
        s.len() == w * h * bpp,
        forall|p: int| 0 <= p < w * h ==> is_opaque(s, bpp, t, p),
    ensures
        dilated(s, w, h, bpp, t, rounds) == s,
{
    lemma_opaque_image_unchanged(s, w, h, bpp, t, total_passes(rounds));
}

/// After any number of passes and the merge, every alpha-like byte is the one
/// the image had.
pub proof fn lemma_merge_keeps_alpha(s: Seq<u8>, w: int, h: int, bpp: int, t: u8, n: nat)
    requires
        valid_bpp(bpp),
        w >= 0,
        h >= 0,
        s.len() == w * h * bpp,
    ensures
        forall|p: int|
            0 <= p < w * h ==> #[trigger] alpha_at(merged(passes(s, w, h, bpp, t, n), s, bpp), bpp, p)
                == alpha_at(s, bpp, p),
{
    assert forall|p: int| 0 <= p < w * h implies #[trigger] alpha_at(
        merged(passes(s, w, h, bpp, t, n), s, bpp),
        bpp,
        p,
    ) == alpha_at(s, bpp, p) by {
        lemma_pixel_byte(p, bpp - 1, w * h, bpp);
    }
}

/// Dilating a rectangle of a buffer leaves every alpha-like byte of the buffer
/// as it was.
pub proof fn lemma_region_keeps_alpha(
    buf: Seq<u8>,
    w: int,
    h: int,
    bpp: int,
    x: int,
    y: int,
    sw: int,
    sh: int,
    t: u8,
    rounds: nat,
)
    requires
        valid_bpp(bpp),
        buf.len() == w * h * bpp,
        rect_fits(w, h, x, y, sw, sh),
    ensures
        forall|p: int|
            0 <= p < w * h ==> #[trigger] alpha_at(
                dilated_region(buf, w, bpp, x, y, sw, sh, t, rounds),
                bpp,
                p,
            ) == alpha_at(buf, bpp, p),
{
    let e = extract(buf, w, bpp, x, y, sw, sh);
    let d = dilated(e, sw, sh, bpp, t, rounds);
    assert forall|p: int| 0 <= p < w * h implies #[trigger] alpha_at(
        dilated_region(buf, w, bpp, x, y, sw, sh, t, rounds),
        bpp,
        p,
    ) == alpha_at(buf, bpp, p) by {
        let i = p * bpp + bpp - 1;
        lemma_pixel_byte(p, bpp - 1, w * h, bpp);
        if in_rect(w, bpp, x, y, sw, sh, i) {
            lemma_rect_inverse(w, h, bpp, x, y, sw, sh, i);
            let ri = i / (w * bpp) - y;
            let ki = i % (w * bpp) - x * bpp;
            let j = rect_index(w, bpp, x, y, sw, i);
            lemma_rect_byte(w, h, bpp, x, y, sw, sh, ri, ki);
            assert(i == bpp * ((y + ri) * w + x) + ki && j == bpp * (ri * sw) + ki)
                by (nonlinear_arith)
                requires
                    i == (y + ri) * (w * bpp) + x * bpp + ki,
                    j == ri * (sw * bpp) + ki,
            ;
            lemma_mod_multiples_vanish((y + ri) * w + x, ki, bpp);
            lemma_mod_multiples_vanish(ri * sw, ki, bpp);
            assert(e[j] == buf[i]);
            assert(d[j] == e[j]);
        }
    }
}

/// Pixel `(x, y)` has row-major index `y * w + x`, inside the image, and that
/// index gives back `x` and `y`.
proof fn lemma_pixel_coords(w: int, h: int, x: int, y: int)
    requires
        0 <= x < w,
        0 <= y < h,
    ensures
        0 <= y * w + x < w * h,
        (y * w + x) % w == x,
        (y * w + x) / w == y,
{
    assert(0 <= y * w + x < w * h) by (nonlinear_arith)
        requires
            0 <= x < w,
            0 <= y < h,
    ;
    lemma_fundamental_div_mod_converse(y * w + x, w, y, x);
}

/// The scan from direction `e` on finds the neighbour in direction `d` when
/// it is opaque and no direction from `e` up to it is.
proof fn lemma_scan_finds(s: Seq<u8>, w: int, h: int, bpp: int, t: u8, x: int, y: int, d: int, e: int)
    requires
        0 <= e <= d < 4,
        is_opaque(s, bpp, t, neighbor(w, h, x, y, d)),
        forall|f: int| 0 <= f < d ==> !is_opaque(s, bpp, t, neighbor(w, h, x, y, f)),
    ensures
        first_hit_from(s, w, h, bpp, t, x, y, e) == Some(neighbor(w, h, x, y, d)),
    decreases d - e,
{
    if e < d {
        lemma_scan_finds(s, w, h, bpp, t, x, y, d, e + 1);
    }
}

/// The scan from direction `e` on finds nothing when no neighbour is opaque.
proof fn lemma_scan_misses(s: Seq<u8>, w: int, h: int, bpp: int, t: u8, x: int, y: int, e: int)
    requires
        0 <= e <= 4,
        forall|f: int| 0 <= f < 4 ==> !is_opaque(s, bpp, t, neighbor(w, h, x, y, f)),
    ensures
        first_hit_from(s, w, h, bpp, t, x, y, e) == None::<int>,
    decreases 4 - e,
{
    if e < 4 {
        lemma_scan_misses(s, w, h, bpp, t, x, y, e + 1);
    }
}

/// A pixel that is not opaque, and whose first opaque neighbour in north,
/// west, east, south order lies in direction `d`, takes after one pass the
/// colour bytes of that one neighbour, whatever the other neighbours hold,
/// and alpha 255.
pub proof fn lemma_first_hit_rule(
    s: Seq<u8>,
    w: int,
    h: int,
    bpp: int,
    t: u8,
    x: int,
    y: int,
    d: int,
)
    requires
        valid_bpp(bpp),
        s.len() == w * h * bpp,
        0 <= x < w,
        0 <= y < h,
        0 <= d < 4,
        !is_opaque(s, bpp, t, y * w + x),
        is_opaque(s, bpp, t, neighbor(w, h, x, y, d)),
        forall|e: int| 0 <= e < d ==> !is_opaque(s, bpp, t, neighbor(w, h, x, y, e)),
    ensures
        forall|c: int|
            0 <= c < bpp - 1 ==> #[trigger] pixel_byte(pass(s, w, h, bpp, t), bpp, y * w + x, c)
                == pixel_byte(s, bpp, neighbor(w, h, x, y, d), c),
        alpha_at(pass(s, w, h, bpp, t), bpp, y * w + x) == 255,
{
    lemma_pixel_coords(w, h, x, y);
    lemma_scan_finds(s, w, h, bpp, t, x, y, d, 0);
    assert(first_hit(s, w, h, bpp, t, x, y) == Some(neighbor(w, h, x, y, d)));
    assert forall|c: int| 0 <= c < bpp implies #[trigger] pixel_byte(
        pass(s, w, h, bpp, t),
        bpp,
        y * w + x,
        c,
    ) == if c == bpp - 1 {
        255u8
    } else {
        pixel_byte(s, bpp, neighbor(w, h, x, y, d), c)
    } by {
        lemma_pixel_byte(y * w + x, c, w * h, bpp);
    }
    assert(alpha_at(pass(s, w, h, bpp, t), bpp, y * w + x) == pixel_byte(
        pass(s, w, h, bpp, t),
        bpp,
        y * w + x,
        bpp - 1,
    ));
}

/// A pixel that is not opaque and has no opaque neighbour ends one pass with
/// colour bytes 0 and its alpha-like byte unchanged.
pub proof fn lemma_no_neighbor_rule(s: Seq<u8>, w: int, h: int, bpp: int, t: u8, x: int, y: int)
    requires
        valid_bpp(bpp),
        s.len() == w * h * bpp,
        0 <= x < w,
        0 <= y < h,
        !is_opaque(s, bpp, t, y * w + x),
        forall|d: int| 0 <= d < 4 ==> !is_opaque(s, bpp, t, neighbor(w, h, x, y, d)),
    ensures
        forall|c: int|
            0 <= c < bpp - 1 ==> #[trigger] pixel_byte(pass(s, w, h, bpp, t), bpp, y * w + x, c)
                == 0,
        alpha_at(pass(s, w, h, bpp, t), bpp, y * w + x) == alpha_at(s, bpp, y * w + x),
{
    lemma_pixel_coords(w, h, x, y);
    lemma_scan_misses(s, w, h, bpp, t, x, y, 0);
    assert forall|c: int| 0 <= c < bpp implies #[trigger] pixel_byte(
        pass(s, w, h, bpp, t),
        bpp,
        y * w + x,
        c,
    ) == if c == bpp - 1 {
        alpha_at(s, bpp, y * w + x)
    } else {
        0u8
    } by {
        lemma_pixel_byte(y * w + x, c, w * h, bpp);
    }
    assert(alpha_at(pass(s, w, h, bpp, t), bpp, y * w + x) == pixel_byte(
        pass(s, w, h, bpp, t),
        bpp,
        y * w + x,
        bpp - 1,
    ));
}

/// Byte `c` of pixel `i` of a single row after `k` passes, when pixel 0 is
/// opaque and the others start with alpha 0.
spec fn row_after(s: Seq<u8>, bpp: int, k: nat, i: int, c: int) -> u8 {
    if i == 0 || k == 0 {
        pixel_byte(s, bpp, i, c)
    } else if i <= k {
        if c == bpp - 1 {
            255u8
        } else {
            pixel_byte(s, bpp, 0, c)
        }
    } else {
        0u8
    }
}

/// `r` is a row of width `w` in the state that `k` passes bring `s` to.
spec fn row_matches(r: Seq<u8>, s: Seq<u8>, w: int, bpp: int, k: nat) -> bool {
    &&& r.len() == w * bpp
    &&& forall|i: int, c: int|
        0 <= i < w && 0 <= c < bpp ==> #[trigger] pixel_byte(r, bpp, i, c) == row_after(
            s,
            bpp,
            k,
            i,
            c,
        )
}

/// One more pass over a row in the state of `k` passes brings it to the state
/// of `k + 1`.
proof fn lemma_row_step(r: Seq<u8>, s: Seq<u8>, w: int, bpp: int, t: u8, k: nat)
    requires
        valid_bpp(bpp),
        w >= 1,
        s.len() == w * bpp,
        is_opaque(s, bpp, t, 0),
        forall|i: int| 1 <= i < w ==> #[trigger] alpha_at(s, bpp, i) == 0,
        row_matches(r, s, w, bpp, k),
    ensures
        row_matches(pass(r, w, 1, bpp, t), s, w, bpp, k + 1),
{
    let n = pass(r, w, 1, bpp, t);
    assert forall|q: int| 0 <= q < w implies is_opaque(r, bpp, t, q) == (q <= k) by {
        assert(alpha_at(r, bpp, q) == pixel_byte(r, bpp, q, bpp - 1));
        assert(alpha_at(s, bpp, q) == pixel_byte(s, bpp, q, bpp - 1));
    }
    assert forall|i: int, c: int| 0 <= i < w && 0 <= c < bpp implies #[trigger] pixel_byte(
        n,
        bpp,
        i,
        c,
    ) == row_after(s, bpp, k + 1, i, c) by {
        lemma_pixel_byte(i, c, w, bpp);
        lemma_fundamental_div_mod_converse(i, w, 0, i);
        assert(pixel_byte(n, bpp, i, c) == passed_byte(r, w, 1, bpp, t, i, c));
        assert(pixel_byte(r, bpp, i, c) == row_after(s, bpp, k, i, c));
        if i > k {
            assert(!is_opaque(r, bpp, t, i));
            assert(neighbor(w, 1, i, 0, 0) == i);
            assert(neighbor(w, 1, i, 0, 1) == i - 1);
            if i > k + 1 {
                assert(neighbor(w, 1, i, 0, 2) >= i);
                assert(neighbor(w, 1, i, 0, 3) == i);
                lemma_scan_misses(r, w, 1, bpp, t, i, 0, 0);
                assert(alpha_at(s, bpp, i) == pixel_byte(s, bpp, i, bpp - 1));
                assert(pixel_byte(r, bpp, i, bpp - 1) == row_after(s, bpp, k, i, bpp - 1));
                assert(pixel_byte(r, bpp, i, bpp - 1) == 0);
            } else {
                lemma_scan_finds(r, w, 1, bpp, t, i, 0, 1, 0);
                assert(pixel_byte(r, bpp, k as int, c) == row_after(s, bpp, k, k as int, c));
            }
        } else {
            assert(is_opaque(r, bpp, t, i));
        }
    }
    assert(n.len() == w * bpp);
}

/// In a single row whose first pixel is opaque and whose other pixels start
/// with alpha 0, `k` passes leave the first pixel as it was, give pixels `1`
/// up to `k` the first pixel's colour and alpha 255, and leave the pixels
/// beyond `k` with alpha 0 and, once a pass has run, colour 0.
pub proof fn lemma_row_propagation(s: Seq<u8>, w: int, bpp: int, t: u8, k: nat)
    requires
        valid_bpp(bpp),
        w >= 1,
        s.len() == w * bpp,
        is_opaque(s, bpp, t, 0),
        forall|i: int| 1 <= i < w ==> #[trigger] alpha_at(s, bpp, i) == 0,
    ensures
        forall|c: int|
            0 <= c < bpp ==> #[trigger] pixel_byte(passes(s, w, 1, bpp, t, k), bpp, 0, c)
                == pixel_byte(s, bpp, 0, c),
        forall|i: int|
            1 <= i < w && i <= k ==> #[trigger] alpha_at(passes(s, w, 1, bpp, t, k), bpp, i)
                == 255,
        forall|i: int, c: int|
            1 <= i < w && i <= k && 0 <= c < bpp - 1 ==> #[trigger] pixel_byte(
                passes(s, w, 1, bpp, t, k),
                bpp,
                i,
                c,
            ) == pixel_byte(s, bpp, 0, c),
        forall|i: int| k < i < w ==> #[trigger] alpha_at(passes(s, w, 1, bpp, t, k), bpp, i) == 0,
        forall|i: int, c: int|
            k < i < w && 1 <= k && 0 <= c < bpp - 1 ==> #[trigger] pixel_byte(
                passes(s, w, 1, bpp, t, k),
                bpp,
                i,
                c,
            ) == 0,
{
    lemma_row_state(s, w, bpp, t, k);
    let r = passes(s, w, 1, bpp, t, k);
    assert forall|i: int| 1 <= i < w implies #[trigger] alpha_at(r, bpp, i) == row_after(
        s,
        bpp,
        k,
        i,
        bpp - 1,
    ) by {
        assert(alpha_at(r, bpp, i) == pixel_byte(r, bpp, i, bpp - 1));
        assert(alpha_at(s, bpp, i) == pixel_byte(s, bpp, i, bpp - 1));
    }
}

/// `k` passes bring such a row to the state that `row_after` describes.
proof fn lemma_row_state(s: Seq<u8>, w: int, bpp: int, t: u8, k: nat)
    requires
        valid_bpp(bpp),
        w >= 1,
        s.len() == w * bpp,
        is_opaque(s, bpp, t, 0),
        forall|i: int| 1 <= i < w ==> #[trigger] alpha_at(s, bpp, i) == 0,
    ensures
        row_matches(passes(s, w, 1, bpp, t, k), s, w, bpp, k),
    decreases k,
{
    if k > 0 {
        lemma_row_state(s, w, bpp, t, (k - 1) as nat);
        lemma_row_step(passes(s, w, 1, bpp, t, (k - 1) as nat), s, w, bpp, t, (k - 1) as nat);
    }
}

} // verus!
