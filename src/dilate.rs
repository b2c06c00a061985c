use vstd::prelude::*;

use vstd::arithmetic::div_mod::lemma_fundamental_div_mod;

use crate::model::{
    alpha_at, first_hit, first_hit_from, is_opaque, lemma_pixel_byte, merged, merged_byte, neighbor,
    pass, passed_byte, passes, total_passes, valid_bpp,
};

verus! {

/// Row-major index of the clamped neighbour of `(x, y)` in direction `d`.
fn neighbor_pixel(w: usize, h: usize, x: usize, y: usize, d: usize) -> (r: usize)
    requires
        x < w,
        y < h,
        d < 4,
        w * h <= usize::MAX,
    ensures
        r == neighbor(w as int, h as int, x as int, y as int, d as int),
        r < w * h,
{
    let nx: usize = if d == 1 {
        if x > 0 {
            x - 1
        } else {
            0
        }
    } else if d == 2 {
        if x + 1 < w {
            x + 1
        } else {
            w - 1
        }
    } else {
        x
    };
    let ny: usize = if d == 0 {
        if y > 0 {
            y - 1
        } else {
            0
        }
    } else if d == 3 {
        if y + 1 < h {
            y + 1
        } else {
            h - 1
        }
    } else {
        y
    };
    assert(ny * w + nx < w * h) by (nonlinear_arith)
        requires
            ny < h,
            nx < w,
    ;
    ny * w + nx
}

/// The first neighbour of `(x, y)`, in north, west, east, south order, whose
/// alpha-like byte exceeds `t`.
fn first_opaque_neighbor(
    w: usize,
    h: usize,
    bpp: usize,
    src: &[u8],
    t: u8,
    x: usize,
    y: usize,
) -> (r: Option<usize>)
    requires
        valid_bpp(bpp as int),
        src@.len() == w * h * bpp,
        x < w,
        y < h,
    ensures
        r.is_some() == first_hit(src@, w as int, h as int, bpp as int, t, x as int, y as int).is_some(),
        r.is_some() ==> first_hit(src@, w as int, h as int, bpp as int, t, x as int, y as int)
            == Some(r.unwrap() as int),
        r.is_some() ==> r.unwrap() < w * h,
{
    assert(src@.len() == src.len());
    assert(w * h <= w * h * bpp) by (nonlinear_arith)
        requires
            bpp >= 1,
    ;
    let mut d: usize = 0;
    while d < 4
        invariant
            d <= 4,
            valid_bpp(bpp as int),
            src@.len() == w * h * bpp,
            w * h <= usize::MAX,
            w * h * bpp <= usize::MAX,
            x < w,
            y < h,
            first_hit(src@, w as int, h as int, bpp as int, t, x as int, y as int)
                == first_hit_from(src@, w as int, h as int, bpp as int, t, x as int, y as int, d as int),
        decreases 4 - d,
    {
        let k = neighbor_pixel(w, h, x, y, d);
        proof {
            lemma_pixel_byte(k as int, bpp - 1, (w * h) as int, bpp as int);
        }
        if src[k * bpp + bpp - 1] > t {
            return Some(k);
        }
        d += 1;
    }
    None
}

/// One dilation pass from `src_buff` into `dest_buff`.
///
/// An opaque pixel (alpha-like byte above `alpha_threshold`) is copied as it
/// is. Any other pixel takes the colour of its first opaque neighbour, scanned
/// north, west, east, south with coordinates clamped to the image, and alpha
/// 255; with no opaque neighbour its colour bytes become 0 and its alpha-like
/// byte is kept.
pub fn dilate(
    w: usize,
    h: usize,
    bpp: usize,
    src_buff: &[u8],
    dest_buff: &mut [u8],
    alpha_threshold: u8,
)
    requires
        valid_bpp(bpp as int),
        src_buff@.len() == w * h * bpp,
        old(dest_buff)@.len() == w * h * bpp,
    ensures
        final(dest_buff)@ == pass(src_buff@, w as int, h as int, bpp as int, alpha_threshold),
{
    assert(src_buff@.len() == src_buff.len());
    assert(w * h <= w * h * bpp) by (nonlinear_arith)
        requires
            bpp >= 1,
    ;
    let n: usize = w * h;
    let a: usize = bpp - 1;
    let ghost s = src_buff@;
    let ghost t = alpha_threshold;
    let mut i: usize = 0;
    while i < n
        invariant
            i <= n,
            n == w * h,
            a == bpp - 1,
            valid_bpp(bpp as int),
            s == src_buff@,
            t == alpha_threshold,
            src_buff@.len() == w * h * bpp,
            dest_buff@.len() == w * h * bpp,
            w * h * bpp <= usize::MAX,
            forall|j: int|
                0 <= j < i * bpp ==> dest_buff@[j] == passed_byte(
                    s,
                    w as int,
                    h as int,
                    bpp as int,
                    t,
                    j / bpp as int,
                    j % bpp as int,
                ),
        decreases n - i,
    {
        assert(w > 0) by (nonlinear_arith)
            requires
                i < w * h,
        ;
        let x = i % w;
        let y = i / w;
        proof {
            lemma_fundamental_div_mod(i as int, w as int);
            assert(y < h) by (nonlinear_arith)
                requires
                    i == w * y + x,
                    0 <= x,
                    i < w * h,
            ;
        }
        proof {
            lemma_pixel_byte(i as int, a as int, n as int, bpp as int);
        }
        let m = i * bpp;
        let opaque = src_buff[m + a] > alpha_threshold;
        let hit = if opaque {
            None
        } else {
            first_opaque_neighbor(w, h, bpp, src_buff, alpha_threshold, x, y)
        };
        let mut c: usize = 0;
        while c < bpp
            invariant
                c <= bpp,
                i < n,
                n == w * h,
                m == i * bpp,
                x == i % w,
                y == i / w,
                a == bpp - 1,
                valid_bpp(bpp as int),
                s == src_buff@,
                t == alpha_threshold,
                src_buff@.len() == w * h * bpp,
                dest_buff@.len() == w * h * bpp,
                w * h * bpp <= usize::MAX,
                opaque == is_opaque(s, bpp as int, t, i as int),
                !opaque ==> hit.is_some() == first_hit(
                    s,
                    w as int,
                    h as int,
                    bpp as int,
                    t,
                    x as int,
                    y as int,
                ).is_some(),
                !opaque && hit.is_some() ==> first_hit(
                    s,
                    w as int,
                    h as int,
                    bpp as int,
                    t,
                    x as int,
                    y as int,
                ) == Some(hit.unwrap() as int) && hit.unwrap() < n,
                forall|j: int|
                    0 <= j < m + c ==> dest_buff@[j] == passed_byte(
                        s,
                        w as int,
                        h as int,
                        bpp as int,
                        t,
                        j / bpp as int,
                        j % bpp as int,
                    ),
            decreases bpp - c,
        {
            proof {
                lemma_pixel_byte(i as int, c as int, n as int, bpp as int);
            }
            let v: u8 = if opaque {
                src_buff[m + c]
            } else {
                match hit {
                    Some(k) => {
                        if c == a {
                            255
                        } else {
                            proof {
                                lemma_pixel_byte(k as int, c as int, n as int, bpp as int);
                            }
                            src_buff[k * bpp + c]
                        }
                    },
                    None => {
                        if c == a {
                            src_buff[m + c]
                        } else {
                            0
                        }
                    },
                }
            };
            dest_buff[m + c] = v;
            c += 1;
        }
        i += 1;
    }
    assert(dest_buff@ =~= pass(s, w as int, h as int, bpp as int, t));
}

/// Alpha-preserving merge: every pixel of `dest_buffer` whose alpha-like byte
/// is exactly 0 takes the colour bytes of the same pixel of `src_buffer`;
/// alpha-like bytes, and every pixel with a nonzero one, are left as they are.
pub fn copy_color_values(w: usize, h: usize, bpp: usize, src_buffer: &[u8], dest_buffer: &mut [u8])
    requires
        valid_bpp(bpp as int),
        src_buffer@.len() == w * h * bpp,
        old(dest_buffer)@.len() == w * h * bpp,
    ensures
        final(dest_buffer)@ == merged(src_buffer@, old(dest_buffer)@, bpp as int),
{
    assert(dest_buffer@.len() == dest_buffer.len());
    assert(w * h <= w * h * bpp) by (nonlinear_arith)
        requires
            bpp >= 1,
    ;
    let n: usize = w * h;
    let a: usize = bpp - 1;
    let ghost d0 = dest_buffer@;
    let mut p: usize = 0;
    while p < n
        invariant
            p <= n,
            n == w * h,
            a == bpp - 1,
            valid_bpp(bpp as int),
            src_buffer@.len() == w * h * bpp,
            d0.len() == w * h * bpp,
            dest_buffer@.len() == w * h * bpp,
            w * h * bpp <= usize::MAX,
            forall|j: int|
                0 <= j < p * bpp ==> dest_buffer@[j] == merged_byte(
                    src_buffer@,
                    d0,
                    bpp as int,
                    j,
                ),
            forall|j: int| p * bpp <= j < d0.len() ==> dest_buffer@[j] == d0[j],
        decreases n - p,
    {
        proof {
            lemma_pixel_byte(p as int, a as int, n as int, bpp as int);
        }
        let m = p * bpp;
        let transparent = dest_buffer[m + a] == 0;
        let mut c: usize = 0;
        while c < bpp
            invariant
                c <= bpp,
                p < n,
                n == w * h,
                m == p * bpp,
                a == bpp - 1,
                valid_bpp(bpp as int),
                src_buffer@.len() == w * h * bpp,
                d0.len() == w * h * bpp,
                dest_buffer@.len() == w * h * bpp,
                w * h * bpp <= usize::MAX,
                transparent == (alpha_at(d0, bpp as int, p as int) == 0),
                forall|j: int|
                    0 <= j < m + c ==> dest_buffer@[j] == merged_byte(
                        src_buffer@,
                        d0,
                        bpp as int,
                        j,
                    ),
                forall|j: int| m + c <= j < d0.len() ==> dest_buffer@[j] == d0[j],
            decreases bpp - c,
        {
            proof {
                lemma_pixel_byte(p as int, c as int, n as int, bpp as int);
            }
            if transparent && c < a {
                dest_buffer[m + c] = src_buffer[m + c];
            }
            c += 1;
        }
        p += 1;
    }
    assert(dest_buffer@ =~= merged(src_buffer@, d0, bpp as int));
}

/// Convergence driver: one pass from `original`, then `rounds` round trips
/// between two scratch buffers; the result is the buffer written last.
pub fn converge(
    w: usize,
    h: usize,
    bpp: usize,
    original: &[u8],
    alpha_threshold: u8,
    rounds: usize,
) -> (r: Vec<u8>)
    requires
        valid_bpp(bpp as int),
        original@.len() == w * h * bpp,
    ensures
        r@ == passes(
            original@,
            w as int,
            h as int,
            bpp as int,
            alpha_threshold,
            total_passes(rounds as nat),
        ),
{
    let size = original.len();
    let mut buffer_a: Vec<u8> = vec![0u8; size];
    let mut buffer_b: Vec<u8> = vec![0u8; size];
    dilate(w, h, bpp, original, buffer_a.as_mut_slice(), alpha_threshold);
    assert(passes(original@, w as int, h as int, bpp as int, alpha_threshold, 1) == pass(
        passes(original@, w as int, h as int, bpp as int, alpha_threshold, 0),
        w as int,
        h as int,
        bpp as int,
        alpha_threshold,
    ));
    let mut i: usize = 0;
    while i < rounds
        invariant
            i <= rounds,
            valid_bpp(bpp as int),
            original@.len() == w * h * bpp,
            buffer_a@.len() == w * h * bpp,
            buffer_b@.len() == w * h * bpp,
            buffer_a@ == passes(
                original@,
                w as int,
                h as int,
                bpp as int,
                alpha_threshold,
                total_passes(i as nat),
            ),
        decreases rounds - i,
    {
        let ghost k = total_passes(i as nat);
        dilate(w, h, bpp, buffer_a.as_slice(), buffer_b.as_mut_slice(), alpha_threshold);
        assert(
            buffer_b@ == passes(original@, w as int, h as int, bpp as int, alpha_threshold, k + 1)
        );
        dilate(w, h, bpp, buffer_b.as_slice(), buffer_a.as_mut_slice(), alpha_threshold);
        assert(
            buffer_a@ == passes(original@, w as int, h as int, bpp as int, alpha_threshold, k + 2)
        );
        assert(total_passes((i + 1) as nat) == k + 2);
        i += 1;
    }
    buffer_a
}

} // verus!
