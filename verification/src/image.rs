//! The eight geometric symmetries applied to a row-major pixel buffer.
//!
//! A buffer of a `w × h` picture holds pixel `(x, y)` at index `y * w + x`.
//! Every operation here is a pure permutation of the pixels: no value is
//! changed, only its position, exactly as [`op_place`] describes.

use vstd::prelude::*;
use crate::geometry::{GeometricOp, op_place, op_swaps, acts_as_inverse, acts_as_composite};

verus! {

/// The pixel at `(x, y)` of a row-major buffer `w` pixels wide.
pub open spec fn at<T>(s: Seq<T>, w: int, x: int, y: int) -> T {
    s[y * w + x]
}

/// The dimensions of the picture the op produces from a `w × h` one.
pub open spec fn op_dims(op: GeometricOp, w: int, h: int) -> (int, int) {
    if op_swaps(op) {
        (h, w)
    } else {
        (w, h)
    }
}

/// The source pixel the op moves onto `(dx, dy)` of the output picture, for
/// a `w × h` input.
pub open spec fn op_source(op: GeometricOp, dx: int, dy: int, w: int, h: int) -> (int, int) {
    match op {
        GeometricOp::Identity => (dx, dy),
        GeometricOp::FlipHorizontal => (w - 1 - dx, dy),
        GeometricOp::FlipVertical => (dx, h - 1 - dy),
        GeometricOp::Rotate180 => (w - 1 - dx, h - 1 - dy),
        GeometricOp::Rotate90Cw => (dy, h - 1 - dx),
        GeometricOp::Rotate90Ccw => (w - 1 - dy, dx),
        GeometricOp::Transpose => (dy, dx),
        GeometricOp::AntiTranspose => (w - 1 - dy, h - 1 - dx),
    }
}

/// `out` is the picture `src` (`w × h`) with `op` applied: every source
/// pixel sits where [`op_place`] sends it.
pub open spec fn is_transformed<T>(src: Seq<T>, w: int, h: int, op: GeometricOp, out: Seq<T>) -> bool {
    let (ow, oh) = op_dims(op, w, h);
    &&& out.len() == w * h
    &&& forall|x: int, y: int|
        0 <= x < w && 0 <= y < h ==> {
            let q = op_place(op, (x, y, w, h));
            #[trigger] at(src, w, x, y) == at(out, ow, q.0, q.1)
        }
}

proof fn lemma_index_bound(x: int, y: int, w: int, h: int)
    requires
        0 <= x < w,
        0 <= y < h,
    ensures
        0 <= y * w + x < w * h,
        y * w + x + 1 <= w * h,
{
    assert(0 <= y * w) by (nonlinear_arith)
        requires
            0 <= y,
            0 <= w,
    ;
    assert(y * w + x < w * h) by (nonlinear_arith)
        requires
            0 <= x < w,
            0 <= y < h,
    ;
}

proof fn lemma_source_in_bounds(op: GeometricOp, dx: int, dy: int, w: int, h: int)
    requires
        0 <= dx < op_dims(op, w, h).0,
        0 <= dy < op_dims(op, w, h).1,
    ensures
        0 <= op_source(op, dx, dy, w, h).0 < w,
        0 <= op_source(op, dx, dy, w, h).1 < h,
        op_place(op, (op_source(op, dx, dy, w, h).0, op_source(op, dx, dy, w, h).1, w, h))
            == (dx, dy, op_dims(op, w, h).0, op_dims(op, w, h).1),
{
}

proof fn lemma_place_in_bounds(op: GeometricOp, x: int, y: int, w: int, h: int)
    requires
        0 <= x < w,
        0 <= y < h,
    ensures
        0 <= op_place(op, (x, y, w, h)).0 < op_dims(op, w, h).0,
        0 <= op_place(op, (x, y, w, h)).1 < op_dims(op, w, h).1,
        op_place(op, (x, y, w, h)).2 == op_dims(op, w, h).0,
        op_place(op, (x, y, w, h)).3 == op_dims(op, w, h).1,
        op_source(op, op_place(op, (x, y, w, h)).0, op_place(op, (x, y, w, h)).1, w, h) == (x, y),
{
}

/// The buffer `src` (`w × h`) with `op` applied, built pixel by pixel from
/// the source of each output position.
pub open spec fn transformed<T>(src: Seq<T>, w: int, h: int, op: GeometricOp) -> Seq<T> {
    let ow = op_dims(op, w, h).0;
    Seq::new(
        (w * h) as nat,
        |j: int|
            {
                let s = op_source(op, j % ow, j / ow, w, h);
                at(src, w, s.0, s.1)
            },
    )
}

proof fn lemma_div_mod_index(a: int, b: int, n: int)
    requires
        0 <= a,
        0 <= b < n,
    ensures
        (a * n + b) / n == a,
        (a * n + b) % n == b,
{
    vstd::arithmetic::div_mod::lemma_fundamental_div_mod_converse(a * n + b, n, a, b);
}

/// [`transformed`] is the buffer with the op applied.
pub proof fn lemma_transformed<T>(src: Seq<T>, w: int, h: int, op: GeometricOp)
    requires
        0 <= w,
        0 <= h,
        src.len() == w * h,
    ensures
        is_transformed(src, w, h, op, transformed(src, w, h, op)),
{
    let (ow, oh) = op_dims(op, w, h);
    let out = transformed(src, w, h, op);
    assert(0 <= w * h) by (nonlinear_arith)
        requires
            0 <= w,
            0 <= h,
    ;
    assert forall|x: int, y: int|
        0 <= x < w && 0 <= y < h implies {
            let q = op_place(op, (x, y, w, h));
            #[trigger] at(src, w, x, y) == at(out, ow, q.0, q.1)
        } by {
        lemma_place_in_bounds(op, x, y, w, h);
        let q = op_place(op, (x, y, w, h));
        lemma_div_mod_index(q.1, q.0, ow);
        lemma_index_bound(q.0, q.1, ow, oh);
        assert(ow * oh == w * h) by (nonlinear_arith)
            requires
                (ow == w && oh == h) || (ow == h && oh == w),
        ;
    }
}

/// Apply one of the eight symmetries to the `w × h` row-major buffer
/// `pixels`, returning the transformed buffer (of the swapped dimensions
/// for the four 90°-class ops).
pub fn apply_geometric_buf<T: Copy>(pixels: &Vec<T>, width: usize, height: usize, op: GeometricOp) -> (out: Vec<T>)
    requires
        pixels@.len() == width * height,
    ensures
        is_transformed(pixels@, width as int, height as int, op, out@),
        out@ == transformed(pixels@, width as int, height as int, op),
{
    let ghost w = width as int;
    let ghost h = height as int;
    let swap = op.swaps_dimensions();
    let (ow, oh) = if swap { (height, width) } else { (width, height) };
    proof {
        assert(ow * oh == w * h) by (nonlinear_arith)
            requires
                (ow == w && oh == h) || (ow == h && oh == w),
        ;
    }
    let n = pixels.len();
    let mut out: Vec<T> = Vec::with_capacity(0);
    let mut dy: usize = 0;
    while dy < oh
        invariant
            pixels@.len() == w * h,
            n == w * h,
            w == width,
            h == height,
            (ow as int, oh as int) == op_dims(op, w, h),
            ow * oh == w * h,
            dy <= oh,
            out@.len() == dy * ow,
            forall|xx: int, yy: int|
                0 <= xx < ow && 0 <= yy < dy ==> {
                    let s = op_source(op, xx, yy, w, h);
                    #[trigger] at(out@, ow as int, xx, yy) == at(pixels@, w, s.0, s.1)
                },
        decreases oh - dy,
    {
        let mut dx: usize = 0;
        while dx < ow
            invariant
                pixels@.len() == w * h,
                n == w * h,
                w == width,
                h == height,
                (ow as int, oh as int) == op_dims(op, w, h),
                ow * oh == w * h,
                dy < oh,
                dx <= ow,
                out@.len() == dy * ow + dx,
                forall|xx: int, yy: int|
                    0 <= xx < ow && 0 <= yy < dy ==> {
                        let s = op_source(op, xx, yy, w, h);
                        #[trigger] at(out@, ow as int, xx, yy) == at(pixels@, w, s.0, s.1)
                    },
                forall|xx: int|
                    0 <= xx < dx ==> {
                        let s = op_source(op, xx, dy as int, w, h);
                        #[trigger] at(out@, ow as int, xx, dy as int) == at(pixels@, w, s.0, s.1)
                    },
            decreases ow - dx,
        {
            let (sx, sy) = match op {
                GeometricOp::Identity => (dx, dy),
                GeometricOp::FlipHorizontal => (width - 1 - dx, dy),
                GeometricOp::FlipVertical => (dx, height - 1 - dy),
                GeometricOp::Rotate180 => (width - 1 - dx, height - 1 - dy),
                GeometricOp::Rotate90Cw => (dy, height - 1 - dx),
                GeometricOp::Rotate90Ccw => (width - 1 - dy, dx),
                GeometricOp::Transpose => (dy, dx),
                GeometricOp::AntiTranspose => (width - 1 - dy, height - 1 - dx),
            };
            proof {
                lemma_source_in_bounds(op, dx as int, dy as int, w, h);
                lemma_index_bound(sx as int, sy as int, w, h);
                lemma_index_bound(dx as int, dy as int, ow as int, oh as int);
            }
            let v = pixels[sy * width + sx];
            let ghost prev = out@;
            out.push(v);
            proof {
                assert forall|xx: int, yy: int|
                    0 <= xx < ow && 0 <= yy < dy implies {
                        let s = op_source(op, xx, yy, w, h);
                        #[trigger] at(out@, ow as int, xx, yy) == at(pixels@, w, s.0, s.1)
                    } by {
                    assert(yy * ow + xx < dy * ow) by (nonlinear_arith)
                        requires
                            0 <= xx < ow,
                            0 <= yy < dy,
                    ;
                    assert(at(prev, ow as int, xx, yy) == at(out@, ow as int, xx, yy));
                }
                assert forall|xx: int|
                    0 <= xx < dx + 1 implies {
                        let s = op_source(op, xx, dy as int, w, h);
                        #[trigger] at(out@, ow as int, xx, dy as int) == at(pixels@, w, s.0, s.1)
                    } by {
                    if xx < dx {
                        assert(at(prev, ow as int, xx, dy as int) == at(out@, ow as int, xx, dy as int));
                    }
                }
            }
            dx = dx + 1;
        }
        proof {
            assert((dy + 1) * ow == dy * ow + ow) by (nonlinear_arith);
        }
        dy = dy + 1;
    }
    proof {
        assert(out@.len() == w * h) by (nonlinear_arith)
            requires
                out@.len() == dy * ow,
                dy == oh,
                ow * oh == w * h,
        ;
        assert forall|x: int, y: int|
            0 <= x < w && 0 <= y < h implies {
                let q = op_place(op, (x, y, w, h));
                #[trigger] at(pixels@, w, x, y) == at(out@, ow as int, q.0, q.1)
            } by {
            lemma_place_in_bounds(op, x, y, w, h);
            let q = op_place(op, (x, y, w, h));
            assert(at(out@, ow as int, q.0, q.1) == {
                let s = op_source(op, q.0, q.1, w, h);
                at(pixels@, w, s.0, s.1)
            });
        }
        lemma_transformed(pixels@, w, h, op);
        lemma_transformed_unique(pixels@, w, h, op, out@, transformed(pixels@, w, h, op));
    }
    out
}


proof fn lemma_split_index(j: int, w: int, h: int)
    requires
        0 <= j < w * h,
        0 < w,
    ensures
        0 <= j % w < w,
        0 <= j / w < h,
        j == (j / w) * w + j % w,
{
    vstd::arithmetic::div_mod::lemma_fundamental_div_mod(j, w);
    vstd::arithmetic::div_mod::lemma_mod_bound(j, w);
    let q = j / w;
    let r = j % w;
    assert(j == w * q + r);
    assert(0 <= q && q < h && j == q * w + r) by (nonlinear_arith)
        requires
            j == w * q + r,
            0 <= r < w,
            0 <= j < w * h,
            0 < w,
    ;
}

/// A transformed buffer is determined by its source: two buffers that are
/// both `op` applied to `src` are equal.
pub proof fn lemma_transformed_unique<T>(src: Seq<T>, w: int, h: int, op: GeometricOp, a: Seq<T>, b: Seq<T>)
    requires
        0 <= w,
        0 <= h,
        is_transformed(src, w, h, op, a),
        is_transformed(src, w, h, op, b),
    ensures
        a == b,
{
    let (ow, oh) = op_dims(op, w, h);
    assert(ow * oh == w * h) by (nonlinear_arith)
        requires
            (ow == w && oh == h) || (ow == h && oh == w),
    ;
    assert forall|j: int| 0 <= j < a.len() implies a[j] == b[j] by {
        if ow == 0 {
            assert(ow * oh == 0);
        }
        lemma_split_index(j, ow, oh);
        let dx = j % ow;
        let dy = j / ow;
        lemma_source_in_bounds(op, dx, dy, w, h);
        let s = op_source(op, dx, dy, w, h);
        assert(at(src, w, s.0, s.1) == at(a, ow, dx, dy));
        assert(at(src, w, s.0, s.1) == at(b, ow, dx, dy));
    }
    assert(a =~= b);
}

/// Applying an op and then its inverse gives back the original buffer.
pub proof fn law_transform_then_inverse_restores<T>(
    src: Seq<T>,
    w: int,
    h: int,
    op: GeometricOp,
    inv: GeometricOp,
    mid: Seq<T>,
    back: Seq<T>,
)
    requires
        0 <= w,
        0 <= h,
        src.len() == w * h,
        acts_as_inverse(inv, op),
        is_transformed(src, w, h, op, mid),
        is_transformed(mid, op_dims(op, w, h).0, op_dims(op, w, h).1, inv, back),
    ensures
        back == src,
{
    let (ow, oh) = op_dims(op, w, h);
    assert(op_dims(inv, ow, oh) == (w, h)) by {
        assert(op_place(inv, op_place(op, (0, 0, w, h))) == (0int, 0int, w, h));
    }
    assert forall|j: int| 0 <= j < src.len() implies back[j] == src[j] by {
        if w > 0 {
            lemma_split_index(j, w, h);
            let x = j % w;
            let y = j / w;
            lemma_place_in_bounds(op, x, y, w, h);
            let q = op_place(op, (x, y, w, h));
            assert(at(src, w, x, y) == at(mid, ow, q.0, q.1));
            lemma_place_in_bounds(inv, q.0, q.1, ow, oh);
            assert(op_place(inv, (q.0, q.1, ow, oh)) == (x, y, w, h));
            assert(at(mid, ow, q.0, q.1) == at(back, w, x, y));
        }
    }
    assert(back.len() == src.len()) by (nonlinear_arith)
        requires
            back.len() == ow * oh,
            (ow == w && oh == h) || (ow == h && oh == w),
            src.len() == w * h,
    ;
    assert(back =~= src);
}

/// Applying `a` and then `b` equals applying their composite in one pass.
pub proof fn law_transform_composition<T>(
    src: Seq<T>,
    w: int,
    h: int,
    a: GeometricOp,
    b: GeometricOp,
    ab: GeometricOp,
    mid: Seq<T>,
    two_pass: Seq<T>,
    one_pass: Seq<T>,
)
    requires
        0 <= w,
        0 <= h,
        src.len() == w * h,
        acts_as_composite(ab, a, b),
        is_transformed(src, w, h, a, mid),
        is_transformed(mid, op_dims(a, w, h).0, op_dims(a, w, h).1, b, two_pass),
        is_transformed(src, w, h, ab, one_pass),
    ensures
        two_pass == one_pass,
{
    let (aw, ah) = op_dims(a, w, h);
    assert(op_place(ab, (0, 0, w, h)) == op_place(b, op_place(a, (0, 0, w, h))));
    assert(op_dims(b, aw, ah) == op_dims(ab, w, h));
    assert(aw * ah == w * h) by (nonlinear_arith)
        requires
            (aw == w && ah == h) || (aw == h && ah == w),
    ;
    assert(is_transformed(src, w, h, ab, two_pass)) by {
        assert forall|x: int, y: int|
            0 <= x < w && 0 <= y < h implies {
                let q = op_place(ab, (x, y, w, h));
                #[trigger] at(src, w, x, y) == at(two_pass, op_dims(ab, w, h).0, q.0, q.1)
            } by {
            lemma_place_in_bounds(a, x, y, w, h);
            let qa = op_place(a, (x, y, w, h));
            assert(at(src, w, x, y) == at(mid, aw, qa.0, qa.1));
            lemma_place_in_bounds(b, qa.0, qa.1, aw, ah);
            assert(op_place(ab, (x, y, w, h)) == op_place(b, qa));
            assert(at(mid, aw, qa.0, qa.1) == at(two_pass, op_dims(b, aw, ah).0, op_place(b, qa).0, op_place(b, qa).1));
        }
    }
    lemma_transformed_unique(src, w, h, ab, two_pass, one_pass);
}

} // verus!
