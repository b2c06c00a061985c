use vstd::prelude::*;

use vstd::arithmetic::div_mod::lemma_fundamental_div_mod_converse;

verus! {

/// A pixel buffer holds either three or four bytes per pixel; the last byte of
/// each pixel is its alpha-like byte.
pub open spec fn valid_bpp(bpp: int) -> bool {
    bpp == 3 || bpp == 4
}

/// Horizontal step of direction `d`, where the four directions are numbered
/// in the order in which they are scanned: north, west, east, south.
pub open spec fn dir_dx(d: int) -> int {
    if d == 1 {
        -1
    } else if d == 2 {
        1
    } else {
        0
    }
}

/// Vertical step of direction `d`; rows grow downwards.
pub open spec fn dir_dy(d: int) -> int {
    if d == 0 {
        -1
    } else if d == 3 {
        1
    } else {
        0
    }
}

/// `v` clipped to `[0, hi]`.
pub open spec fn clamp(v: int, hi: int) -> int {
    if v < 0 {
        0
    } else if v > hi {
        hi
    } else {
        v
    }
}

/// Row-major index of the neighbour of pixel `(x, y)` in direction `d`,
/// each coordinate clamped to the image.
pub open spec fn neighbor(w: int, h: int, x: int, y: int, d: int) -> int {
    clamp(y + dir_dy(d), h - 1) * w + clamp(x + dir_dx(d), w - 1)
}

/// Byte `c` of pixel `p`.
pub open spec fn pixel_byte(s: Seq<u8>, bpp: int, p: int, c: int) -> u8 {
    s[p * bpp + c]
}

/// The alpha-like byte of pixel `p`.
pub open spec fn alpha_at(s: Seq<u8>, bpp: int, p: int) -> u8 {
    s[p * bpp + bpp - 1]
}

/// Pixel `p` is opaque when its alpha-like byte exceeds the threshold.
pub open spec fn is_opaque(s: Seq<u8>, bpp: int, t: u8, p: int) -> bool {
    alpha_at(s, bpp, p) > t
}

/// The first opaque neighbour of `(x, y)` among directions `d..4`.
pub open spec fn first_hit_from(
    s: Seq<u8>,
    w: int,
    h: int,
    bpp: int,
    t: u8,
    x: int,
    y: int,
    d: int,
) -> Option<int>
    decreases 4 - d,
{
    if d >= 4 || d < 0 {
        None
    } else if is_opaque(s, bpp, t, neighbor(w, h, x, y, d)) {
        Some(neighbor(w, h, x, y, d))
    } else {
        first_hit_from(s, w, h, bpp, t, x, y, d + 1)
    }
}

/// The first opaque neighbour of `(x, y)` in north, west, east, south order.
pub open spec fn first_hit(s: Seq<u8>, w: int, h: int, bpp: int, t: u8, x: int, y: int) -> Option<
    int,
> {
    first_hit_from(s, w, h, bpp, t, x, y, 0)
}

/// Byte `c` of pixel `p` after one pass over `s`.
pub open spec fn passed_byte(
    s: Seq<u8>,
    w: int,
    h: int,
    bpp: int,
    t: u8,
    p: int,
    c: int,
) -> u8 {
    if is_opaque(s, bpp, t, p) {
        s[p * bpp + c]
    } else {
        match first_hit(s, w, h, bpp, t, p % w, p / w) {
            Some(n) => if c == bpp - 1 {
                255u8
            } else {
                s[n * bpp + c]
            },
            None => if c == bpp - 1 {
                s[p * bpp + c]
            } else {
                0u8
            },
        }
    }
}

/// One dilation pass over a `w` x `h` image.
pub open spec fn pass(s: Seq<u8>, w: int, h: int, bpp: int, t: u8) -> Seq<u8> {
    Seq::new((w * h * bpp) as nat, |j: int| passed_byte(s, w, h, bpp, t, j / bpp, j % bpp))
}

/// `n` dilation passes, each reading what the previous one wrote.
pub open spec fn passes(s: Seq<u8>, w: int, h: int, bpp: int, t: u8, n: nat) -> Seq<u8>
    decreases n,
{
    if n == 0 {
        s
    } else {
        pass(passes(s, w, h, bpp, t, (n - 1) as nat), w, h, bpp, t)
    }
}

/// Byte `j` after merging `dilated` onto `orig`: the colour bytes of a pixel
/// whose alpha-like byte in `orig` is exactly 0 come from `dilated`; every
/// other byte is `orig`'s.
pub open spec fn merged_byte(dilated: Seq<u8>, orig: Seq<u8>, bpp: int, j: int) -> u8 {
    if alpha_at(orig, bpp, j / bpp) == 0 && j % bpp != bpp - 1 {
        dilated[j]
    } else {
        orig[j]
    }
}

/// `orig` with the colour of its fully transparent pixels taken from `dilated`.
pub open spec fn merged(dilated: Seq<u8>, orig: Seq<u8>, bpp: int) -> Seq<u8> {
    Seq::new(orig.len(), |j: int| merged_byte(dilated, orig, bpp, j))
}

/// The number of passes that the driver runs for `rounds` round trips: one
/// initial pass and two for each round trip.
pub open spec fn total_passes(rounds: nat) -> nat {
    2 * rounds + 1
}

/// The whole pipeline on a `w` x `h` image: the passes of `rounds` round
/// trips, merged back onto the image itself.
pub open spec fn dilated(s: Seq<u8>, w: int, h: int, bpp: int, t: u8, rounds: nat) -> Seq<u8> {
    merged(passes(s, w, h, bpp, t, total_passes(rounds)), s, bpp)
}

/// A rectangle that lies inside a `w` x `h` buffer.
pub open spec fn rect_fits(w: int, h: int, x: int, y: int, sw: int, sh: int) -> bool {
    0 <= x && 0 <= y && 0 <= sw && 0 <= sh && x + sw <= w && y + sh <= h
}

/// Index, in a buffer of row width `w`, of byte `k` of row `r` of the
/// rectangle whose top-left pixel is `(x, y)`.
pub open spec fn buffer_index(w: int, bpp: int, x: int, y: int, r: int, k: int) -> int {
    (y + r) * (w * bpp) + x * bpp + k
}

/// The `sw` x `sh` rectangle at `(x, y)` of a buffer of row width `w`, as a
/// contiguous buffer of its own.
pub open spec fn extract(buf: Seq<u8>, w: int, bpp: int, x: int, y: int, sw: int, sh: int) -> Seq<
    u8,
> {
    Seq::new(
        (sw * sh * bpp) as nat,
        |j: int| buf[buffer_index(w, bpp, x, y, j / (sw * bpp), j % (sw * bpp))],
    )
}

/// Byte `i` of a buffer of row width `w` lies in the `sw` x `sh` rectangle at
/// `(x, y)`.
pub open spec fn in_rect(w: int, bpp: int, x: int, y: int, sw: int, sh: int, i: int) -> bool {
    let row = i / (w * bpp);
    let col = i % (w * bpp);
    y <= row < y + sh && x * bpp <= col < (x + sw) * bpp
}

/// Where byte `i` of the buffer stands in the extracted rectangle.
pub open spec fn rect_index(w: int, bpp: int, x: int, y: int, sw: int, i: int) -> int {
    (i / (w * bpp) - y) * (sw * bpp) + (i % (w * bpp) - x * bpp)
}

/// `buf` with the `sw` x `sh` rectangle at `(x, y)` replaced by `sub`.
pub open spec fn write_back(
    buf: Seq<u8>,
    w: int,
    bpp: int,
    x: int,
    y: int,
    sw: int,
    sh: int,
    sub: Seq<u8>,
) -> Seq<u8> {
    Seq::new(
        buf.len(),
        |i: int|
            if in_rect(w, bpp, x, y, sw, sh, i) {
                sub[rect_index(w, bpp, x, y, sw, i)]
            } else {
                buf[i]
            },
    )
}

/// The whole pipeline applied to the `sw` x `sh` rectangle at `(x, y)`: it is
/// extracted, dilated and merged, and written back in place.
pub open spec fn dilated_region(
    buf: Seq<u8>,
    w: int,
    bpp: int,
    x: int,
    y: int,
    sw: int,
    sh: int,
    t: u8,
    rounds: nat,
) -> Seq<u8> {
    write_back(
        buf,
        w,
        bpp,
        x,
        y,
        sw,
        sh,
        dilated(extract(buf, w, bpp, x, y, sw, sh), sw, sh, bpp, t, rounds),
    )
}

/// Byte `c` of pixel `p` lies inside an `n`-pixel buffer, and dividing its
/// index by `bpp` gives back the pixel and the byte within it.
pub proof fn lemma_pixel_byte(p: int, c: int, n: int, bpp: int)
    requires
        0 <= p < n,
        0 <= c < bpp,
    ensures
        0 <= p * bpp + c < n * bpp,
        (p * bpp + c) / bpp == p,
        (p * bpp + c) % bpp == c,
{
    assert(0 <= p * bpp + c < n * bpp) by (nonlinear_arith)
        requires
            0 <= p < n,
            0 <= c < bpp,
    ;
    lemma_fundamental_div_mod_converse(p * bpp + c, bpp, p, c);
}

} // verus!
