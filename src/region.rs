use vstd::prelude::*;

use vstd::arithmetic::div_mod::lemma_fundamental_div_mod_converse;
use vstd::arithmetic::div_mod::lemma_fundamental_div_mod;

use crate::dilate::{converge, copy_color_values};
use crate::laws::lemma_region_full_equivalence;
use crate::model::{
    buffer_index, dilated, dilated_region, extract, in_rect, rect_fits, rect_index, valid_bpp,
    write_back,
};

verus! {

/// Byte `k` of row `r` of a rectangle inside the buffer lies inside the
/// buffer and inside the rectangle, and maps back to `r * (sw * bpp) + k`.
pub proof fn lemma_rect_byte(
    w: int,
    h: int,
    bpp: int,
    x: int,
    y: int,
    sw: int,
    sh: int,
    r: int,
    k: int,
)
    requires
        valid_bpp(bpp),
        rect_fits(w, h, x, y, sw, sh),
        0 <= r < sh,
        0 <= k < sw * bpp,
    ensures
        0 <= buffer_index(w, bpp, x, y, r, k) < w * h * bpp,
        in_rect(w, bpp, x, y, sw, sh, buffer_index(w, bpp, x, y, r, k)),
        rect_index(w, bpp, x, y, sw, buffer_index(w, bpp, x, y, r, k)) == r * (sw * bpp) + k,
        0 <= r * (sw * bpp) + k < sw * sh * bpp,
        (r * (sw * bpp) + k) / (sw * bpp) == r,
        (r * (sw * bpp) + k) % (sw * bpp) == k,
{
    let i = buffer_index(w, bpp, x, y, r, k);
    assert(0 <= x * bpp + k < w * bpp && x * bpp + k < (x + sw) * bpp) by (nonlinear_arith)
        requires
            0 <= x,
            x + sw <= w,
            0 <= k < sw * bpp,
            bpp > 0,
    ;
    lemma_fundamental_div_mod_converse(i, w * bpp, y + r, x * bpp + k);
    assert(0 <= i < w * h * bpp) by (nonlinear_arith)
        requires
            i == (y + r) * (w * bpp) + (x * bpp + k),
            0 <= x * bpp + k < w * bpp,
            0 <= y + r < h,
    ;
    assert(0 <= r * (sw * bpp) + k < sw * sh * bpp) by (nonlinear_arith)
        requires
            0 <= r < sh,
            0 <= k < sw * bpp,
    ;
    lemma_fundamental_div_mod_converse(r * (sw * bpp) + k, sw * bpp, r, k);
}

/// A byte of the buffer inside the rectangle is byte `k` of row `r` of it,
/// for the `r` and `k` that `rect_index` encodes.
pub proof fn lemma_rect_inverse(
    w: int,
    h: int,
    bpp: int,
    x: int,
    y: int,
    sw: int,
    sh: int,
    i: int,
)
    requires
        valid_bpp(bpp),
        rect_fits(w, h, x, y, sw, sh),
        0 <= i,
        in_rect(w, bpp, x, y, sw, sh, i),
    ensures
        0 <= i / (w * bpp) - y < sh,
        0 <= i % (w * bpp) - x * bpp < sw * bpp,
        i == buffer_index(w, bpp, x, y, i / (w * bpp) - y, i % (w * bpp) - x * bpp),
        0 <= rect_index(w, bpp, x, y, sw, i) < sw * sh * bpp,
{
    assert(sw > 0);
    assert(w * bpp > 0) by (nonlinear_arith)
        requires
            w > 0,
            bpp > 0,
    ;
    lemma_fundamental_div_mod(i, w * bpp);
    let r = i / (w * bpp) - y;
    let k = i % (w * bpp) - x * bpp;
    assert(i == (y + r) * (w * bpp) + x * bpp + k) by (nonlinear_arith)
        requires
            i == (w * bpp) * (i / (w * bpp)) + i % (w * bpp),
            r == i / (w * bpp) - y,
            k == i % (w * bpp) - x * bpp,
    ;
    assert(0 <= k < sw * bpp) by (nonlinear_arith)
        requires
            x * bpp <= k + x * bpp < (x + sw) * bpp,
    ;
    lemma_rect_byte(w, h, bpp, x, y, sw, sh, r, k);
}

/// Row `r` of a rectangle inside the buffer ends inside the buffer.
proof fn lemma_rect_row_fits(w: int, h: int, bpp: int, x: int, y: int, sw: int, sh: int, r: int)
    requires
        valid_bpp(bpp),
        rect_fits(w, h, x, y, sw, sh),
        0 <= r < sh,
    ensures
        0 <= sw * bpp <= w * bpp,
        w * bpp <= w * h * bpp,
        0 <= buffer_index(w, bpp, x, y, r, 0),
        buffer_index(w, bpp, x, y, r, 0) + sw * bpp <= w * h * bpp,
{
    assert(0 <= x * bpp && x * bpp + sw * bpp <= w * bpp && 0 <= sw * bpp) by (nonlinear_arith)
        requires
            0 <= x,
            0 <= sw,
            x + sw <= w,
            bpp > 0,
    ;
    assert((y + r) * (w * bpp) + w * bpp <= h * (w * bpp)) by (nonlinear_arith)
        requires
            0 <= y + r < h,
            w * bpp >= 0,
    ;
    assert(h * (w * bpp) == w * h * bpp) by (nonlinear_arith);
    assert(w * bpp <= h * (w * bpp)) by (nonlinear_arith)
        requires
            h >= 1,
            w * bpp >= 0,
    ;
    assert(0 <= (y + r) * (w * bpp)) by (nonlinear_arith)
        requires
            0 <= y + r,
            w * bpp >= 0,
    ;
}

/// Step 1 of the region pipeline: the rectangle copied out row by row into a
/// contiguous buffer.
fn copy_rect_out(
    img_buff: &[u8],
    w: usize,
    h: usize,
    bpp: usize,
    x: usize,
    y: usize,
    sw: usize,
    sh: usize,
) -> (r: Vec<u8>)
    requires
        valid_bpp(bpp as int),
        img_buff@.len() == w * h * bpp,
        rect_fits(w as int, h as int, x as int, y as int, sw as int, sh as int),
    ensures
        r@ == extract(img_buff@, w as int, bpp as int, x as int, y as int, sw as int, sh as int),
{
    assert(img_buff@.len() == img_buff.len());
    let ghost e = extract(
        img_buff@,
        w as int,
        bpp as int,
        x as int,
        y as int,
        sw as int,
        sh as int,
    );
    let mut out: Vec<u8> = Vec::new();
    let mut yh: usize = 0;
    while yh < sh
        invariant
            yh <= sh,
            valid_bpp(bpp as int),
            img_buff@.len() == w * h * bpp,
            w * h * bpp <= usize::MAX,
            rect_fits(w as int, h as int, x as int, y as int, sw as int, sh as int),
            e == extract(img_buff@, w as int, bpp as int, x as int, y as int, sw as int, sh as int),
            out@.len() == yh * (sw * bpp),
            out@.len() <= e.len(),
            e.len() == sw * sh * bpp,
            forall|j: int| 0 <= j < out@.len() ==> out@[j] == e[j],
        decreases sh - yh,
    {
        proof {
            lemma_rect_row_fits(
                w as int,
                h as int,
                bpp as int,
                x as int,
                y as int,
                sw as int,
                sh as int,
                yh as int,
            );
        }
        let row_len = sw * bpp;
        let src_off = (y + yh) * (w * bpp) + x * bpp;
        let mut k: usize = 0;
        while k < row_len
            invariant
                k <= row_len,
                yh < sh,
                row_len == sw * bpp,
                src_off == buffer_index(w as int, bpp as int, x as int, y as int, yh as int, 0),
                valid_bpp(bpp as int),
                img_buff@.len() == w * h * bpp,
                w * h * bpp <= usize::MAX,
                rect_fits(w as int, h as int, x as int, y as int, sw as int, sh as int),
                e == extract(img_buff@, w as int, bpp as int, x as int, y as int, sw as int, sh as int),
                out@.len() == yh * (sw * bpp) + k,
                out@.len() <= e.len(),
                e.len() == sw * sh * bpp,
                forall|j: int| 0 <= j < out@.len() ==> out@[j] == e[j],
            decreases row_len - k,
        {
            proof {
                lemma_rect_byte(
                    w as int,
                    h as int,
                    bpp as int,
                    x as int,
                    y as int,
                    sw as int,
                    sh as int,
                    yh as int,
                    k as int,
                );
            }
            out.push(img_buff[src_off + k]);
            k += 1;
        }
        assert(yh * (sw * bpp) + sw * bpp == (yh + 1) * (sw * bpp) && (yh + 1) * (sw * bpp) <= sw
            * sh * bpp) by (nonlinear_arith)
            requires
                yh < sh,
                sw * bpp >= 0,
        ;
        yh += 1;
    }
    assert(sh * (sw * bpp) == sw * sh * bpp) by (nonlinear_arith);
    assert(out@ =~= e);
    out
}

/// Byte `i` of `b0` once the first `q` bytes of the rectangle have been
/// written back from `sub`.
spec fn written_up_to(
    b0: Seq<u8>,
    w: int,
    bpp: int,
    x: int,
    y: int,
    sw: int,
    sh: int,
    sub: Seq<u8>,
    q: int,
    i: int,
) -> u8 {
    if in_rect(w, bpp, x, y, sw, sh, i) && rect_index(w, bpp, x, y, sw, i) < q {
        sub[rect_index(w, bpp, x, y, sw, i)]
    } else {
        b0[i]
    }
}

/// Step 4 of the region pipeline: `sub` copied back, row by row, over the
/// rectangle it was taken from.
fn copy_rect_in(
    img_buff: &mut [u8],
    w: usize,
    h: usize,
    bpp: usize,
    x: usize,
    y: usize,
    sw: usize,
    sh: usize,
    sub: &[u8],
)
    requires
        valid_bpp(bpp as int),
        old(img_buff)@.len() == w * h * bpp,
        rect_fits(w as int, h as int, x as int, y as int, sw as int, sh as int),
        sub@.len() == sw * sh * bpp,
    ensures
        final(img_buff)@ == write_back(
            old(img_buff)@,
            w as int,
            bpp as int,
            x as int,
            y as int,
            sw as int,
            sh as int,
            sub@,
        ),
{
    assert(img_buff@.len() == img_buff.len());
    assert(sub@.len() == sub.len());
    let ghost b0 = img_buff@;
    let mut yh: usize = 0;
    while yh < sh
        invariant
            yh <= sh,
            valid_bpp(bpp as int),
            b0.len() == w * h * bpp,
            img_buff@.len() == w * h * bpp,
            w * h * bpp <= usize::MAX,
            rect_fits(w as int, h as int, x as int, y as int, sw as int, sh as int),
            sub@.len() == sw * sh * bpp,
            sw * sh * bpp <= usize::MAX,
            forall|i: int|
                0 <= i < b0.len() ==> #[trigger] img_buff@[i] == written_up_to(
                    b0,
                    w as int,
                    bpp as int,
                    x as int,
                    y as int,
                    sw as int,
                    sh as int,
                    sub@,
                    yh * (sw * bpp),
                    i,
                ),
        decreases sh - yh,
    {
        proof {
            lemma_rect_row_fits(
                w as int,
                h as int,
                bpp as int,
                x as int,
                y as int,
                sw as int,
                sh as int,
                yh as int,
            );
            assert(yh * (sw * bpp) + sw * bpp == (yh + 1) * (sw * bpp) && (yh + 1) * (sw * bpp)
                <= sw * sh * bpp) by (nonlinear_arith)
                requires
                    yh < sh,
                    sw * bpp >= 0,
            ;
        }
        let row_len = sw * bpp;
        let src_off = (y + yh) * (w * bpp) + x * bpp;
        let dst_off = yh * row_len;
        let mut k: usize = 0;
        while k < row_len
            invariant
                k <= row_len,
                yh < sh,
                row_len == sw * bpp,
                src_off == buffer_index(w as int, bpp as int, x as int, y as int, yh as int, 0),
                dst_off == yh * (sw * bpp),
                dst_off + row_len <= sw * sh * bpp,
                valid_bpp(bpp as int),
                b0.len() == w * h * bpp,
                img_buff@.len() == w * h * bpp,
                w * h * bpp <= usize::MAX,
                rect_fits(w as int, h as int, x as int, y as int, sw as int, sh as int),
                sub@.len() == sw * sh * bpp,
                sw * sh * bpp <= usize::MAX,
                forall|i: int|
                    0 <= i < b0.len() ==> #[trigger] img_buff@[i] == written_up_to(
                        b0,
                        w as int,
                        bpp as int,
                        x as int,
                        y as int,
                        sw as int,
                        sh as int,
                        sub@,
                        dst_off + k,
                        i,
                    ),
            decreases row_len - k,
        {
            let ghost i0 = buffer_index(
                w as int,
                bpp as int,
                x as int,
                y as int,
                yh as int,
                k as int,
            );
            let ghost q = dst_off + k;
            proof {
                lemma_rect_byte(
                    w as int,
                    h as int,
                    bpp as int,
                    x as int,
                    y as int,
                    sw as int,
                    sh as int,
                    yh as int,
                    k as int,
                );
            }
            img_buff[src_off + k] = sub[dst_off + k];
            proof {
                assert forall|i: int| 0 <= i < b0.len() implies #[trigger] img_buff@[i] == written_up_to(
                    b0,
                    w as int,
                    bpp as int,
                    x as int,
                    y as int,
                    sw as int,
                    sh as int,
                    sub@,
                    q + 1,
                    i,
                ) by {
                    if i != i0 && in_rect(w as int, bpp as int, x as int, y as int, sw as int, sh as int, i)
                        && rect_index(w as int, bpp as int, x as int, y as int, sw as int, i) == q {
                        lemma_rect_inverse(
                            w as int,
                            h as int,
                            bpp as int,
                            x as int,
                            y as int,
                            sw as int,
                            sh as int,
                            i,
                        );
                        let ri = i / (w * bpp) - y;
                        let ki = i % (w * bpp) - x * bpp;
                        lemma_fundamental_div_mod_converse(q, sw * bpp, ri, ki);
                        lemma_fundamental_div_mod_converse(q, sw * bpp, yh as int, k as int);
                    }
                }
            }
            k += 1;
        }
        yh += 1;
    }
    proof {
        assert forall|i: int| 0 <= i < b0.len() && in_rect(w as int, bpp as int, x as int, y as int, sw as int, sh as int, i)
            implies rect_index(w as int, bpp as int, x as int, y as int, sw as int, i) < sh * (sw * bpp) by {
            lemma_rect_inverse(
                w as int,
                h as int,
                bpp as int,
                x as int,
                y as int,
                sw as int,
                sh as int,
                i,
            );
            assert(sh * (sw * bpp) == sw * sh * bpp) by (nonlinear_arith);
        }
    }
    assert(
        img_buff@ =~= write_back(b0, w as int, bpp as int, x as int, y as int, sw as int, sh as int, sub@)
    );
}

/// Dilates the `sw` x `sh` rectangle at `(x, y)` of a `w` x `h` buffer in
/// place: the rectangle is copied out, run through `2 * rounds + 1` passes with
/// the given threshold, the result is merged onto the copy without touching
/// alpha, and the copy is written back.
pub fn dilate_region(
    img_buff: &mut [u8],
    w: usize,
    h: usize,
    bpp: usize,
    x: usize,
    y: usize,
    sw: usize,
    sh: usize,
    alpha_threshold: u8,
    rounds: usize,
)
    requires
        valid_bpp(bpp as int),
        old(img_buff)@.len() == w * h * bpp,
        rect_fits(w as int, h as int, x as int, y as int, sw as int, sh as int),
    ensures
        final(img_buff)@ == dilated_region(
            old(img_buff)@,
            w as int,
            bpp as int,
            x as int,
            y as int,
            sw as int,
            sh as int,
            alpha_threshold,
            rounds as nat,
        ),
{
    let mut original = copy_rect_out(img_buff, w, h, bpp, x, y, sw, sh);
    let ghost orig0 = original@;
    let dilated_buff = converge(sw, sh, bpp, original.as_slice(), alpha_threshold, rounds);
    copy_color_values(sw, sh, bpp, dilated_buff.as_slice(), original.as_mut_slice());
    assert(
        original@ == dilated(orig0, sw as int, sh as int, bpp as int, alpha_threshold, rounds as nat)
    );
    copy_rect_in(img_buff, w, h, bpp, x, y, sw, sh, original.as_slice());
}

/// Alpha threshold of the fixed configuration: a pixel whose alpha-like byte
/// is above it is opaque.
pub const DILATE_ALPHA_THRESHOLD: u8 = 10;

/// Round trips of the fixed configuration, eleven passes in all.
pub const DILATE_ROUNDS: usize = 5;

/// Dilates the `sw` x `sh` rectangle at `(x, y)` of a `w` x `h` buffer in
/// place, with the fixed threshold and number of round trips.
pub fn dilate_image_sub(
    img_buff: &mut [u8],
    w: usize,
    h: usize,
    bpp: usize,
    x: usize,
    y: usize,
    sw: usize,
    sh: usize,
)
    requires
        valid_bpp(bpp as int),
        old(img_buff)@.len() == w * h * bpp,
        rect_fits(w as int, h as int, x as int, y as int, sw as int, sh as int),
    ensures
        final(img_buff)@ == dilated_region(
            old(img_buff)@,
            w as int,
            bpp as int,
            x as int,
            y as int,
            sw as int,
            sh as int,
            DILATE_ALPHA_THRESHOLD,
            DILATE_ROUNDS as nat,
        ),
{
    dilate_region(img_buff, w, h, bpp, x, y, sw, sh, DILATE_ALPHA_THRESHOLD, DILATE_ROUNDS);
}

/// Dilates a whole `w` x `h` buffer in place, with the fixed threshold and
/// number of round trips.
pub fn dilate_image(img_buff: &mut [u8], w: usize, h: usize, bpp: usize)
    requires
        valid_bpp(bpp as int),
        old(img_buff)@.len() == w * h * bpp,
    ensures
        final(img_buff)@ == dilated(
            old(img_buff)@,
            w as int,
            h as int,
            bpp as int,
            DILATE_ALPHA_THRESHOLD,
            DILATE_ROUNDS as nat,
        ),
{
    proof {
        lemma_region_full_equivalence(
            img_buff@,
            w as int,
            h as int,
            bpp as int,
            DILATE_ALPHA_THRESHOLD,
            DILATE_ROUNDS as nat,
        );
    }
    dilate_image_sub(img_buff, w, h, bpp, 0, 0, w, h);
}

/// Why a buffer and a rectangle cannot be dilated.
#[derive(Debug, Clone, Copy, PartialEq, Eq, Structural)]
pub enum DilateError {
    /// Bytes per pixel other than 3 or 4.
    UnsupportedBpp,
    /// The buffer's length is not `w * h * bpp`.
    InvalidBufferShape,
    /// The rectangle does not lie inside the image.
    RectangleOutOfBounds,
}

/// `dilate_image_sub` for arguments that have not been checked: the checks
/// are made in the order bytes per pixel, buffer length, rectangle, and the
/// first that fails is reported with the buffer left as it was.
pub fn try_dilate_image_sub(
    img_buff: &mut [u8],
    w: usize,
    h: usize,
    bpp: usize,
    x: usize,
    y: usize,
    sw: usize,
    sh: usize,
) -> (r: Result<(), DilateError>)
    ensures
        r == Err::<(), DilateError>(DilateError::UnsupportedBpp) <==> !valid_bpp(bpp as int),
        r == Err::<(), DilateError>(DilateError::InvalidBufferShape) <==> valid_bpp(bpp as int)
            && old(img_buff)@.len() != w * h * bpp,
        r == Err::<(), DilateError>(DilateError::RectangleOutOfBounds) <==> valid_bpp(bpp as int)
            && old(img_buff)@.len() == w * h * bpp && !rect_fits(
            w as int,
            h as int,
            x as int,
            y as int,
            sw as int,
            sh as int,
        ),
        r is Ok ==> final(img_buff)@ == dilated_region(
            old(img_buff)@,
            w as int,
            bpp as int,
            x as int,
            y as int,
            sw as int,
            sh as int,
            DILATE_ALPHA_THRESHOLD,
            DILATE_ROUNDS as nat,
        ),
        r is Err ==> final(img_buff)@ == old(img_buff)@,
{
    if bpp != 3 && bpp != 4 {
        return Err(DilateError::UnsupportedBpp);
    }
    let shape_ok = match w.checked_mul(h) {
        Some(n) => match n.checked_mul(bpp) {
            Some(len) => len == img_buff.len(),
            None => false,
        },
        None => false,
    };
    if !shape_ok {
        proof {
            assert(img_buff@.len() == img_buff.len());
            if w * h <= usize::MAX {
                assert(w * h * bpp > usize::MAX || w * h * bpp != img_buff@.len());
            } else {
                assert(w * h * bpp > usize::MAX) by (nonlinear_arith)
                    requires
                        w * h > usize::MAX,
                        bpp >= 1,
                ;
            }
        }
        return Err(DilateError::InvalidBufferShape);
    }
    if sw > w || x > w - sw || sh > h || y > h - sh {
        return Err(DilateError::RectangleOutOfBounds);
    }
    dilate_image_sub(img_buff, w, h, bpp, x, y, sw, sh);
    Ok(())
}

/// `dilate_image` for arguments that have not been checked: an unsupported
/// number of bytes per pixel, or a buffer whose length is not `w * h * bpp`,
/// is reported with the buffer left as it was.
pub fn try_dilate_image(img_buff: &mut [u8], w: usize, h: usize, bpp: usize) -> (r: Result<
    (),
    DilateError,
>)
    ensures
        r == Err::<(), DilateError>(DilateError::UnsupportedBpp) <==> !valid_bpp(bpp as int),
        r == Err::<(), DilateError>(DilateError::InvalidBufferShape) <==> valid_bpp(bpp as int)
            && old(img_buff)@.len() != w * h * bpp,
        r != Err::<(), DilateError>(DilateError::RectangleOutOfBounds),
        r is Ok ==> final(img_buff)@ == dilated(
            old(img_buff)@,
            w as int,
            h as int,
            bpp as int,
            DILATE_ALPHA_THRESHOLD,
            DILATE_ROUNDS as nat,
        ),
        r is Err ==> final(img_buff)@ == old(img_buff)@,
{
    let ghost before = img_buff@;
    let r = try_dilate_image_sub(img_buff, w, h, bpp, 0, 0, w, h);
    proof {
        if r is Ok {
            lemma_region_full_equivalence(
                before,
                w as int,
                h as int,
                bpp as int,
                DILATE_ALPHA_THRESHOLD,
                DILATE_ROUNDS as nat,
            );
        }
    }
    r
}

} // verus!
