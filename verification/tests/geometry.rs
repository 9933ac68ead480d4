
use std::collections::HashSet;

use oxideav_hdr::{AxisSign, GeometricOp, HdrHeader, Orientation};
use AxisSign::{Decreasing, Increasing};

/// Where a source pixel `(x, y)` of a `w × h` picture lands under an op,
/// and the output dimensions.
fn model(op: GeometricOp, x: i64, y: i64, w: i64, h: i64) -> (i64, i64, i64, i64) {
    match op {
        GeometricOp::Identity => (x, y, w, h),
        GeometricOp::FlipHorizontal => (w - 1 - x, y, w, h),
        GeometricOp::FlipVertical => (x, h - 1 - y, w, h),
        GeometricOp::Rotate180 => (w - 1 - x, h - 1 - y, w, h),
        GeometricOp::Rotate90Cw => (h - 1 - y, x, h, w),
        GeometricOp::Rotate90Ccw => (y, w - 1 - x, h, w),
        GeometricOp::Transpose => (y, x, h, w),
        GeometricOp::AntiTranspose => (h - 1 - y, w - 1 - x, h, w),
    }
}

#[test]
fn orientation_axis_fields_round_trip_over_all_eight_forms() {
    for &y in &[Decreasing, Increasing] {
        for &x in &[Decreasing, Increasing] {
            for &xf in &[false, true] {
                let o = Orientation::from_axis_fields(y, x, xf);
                assert_eq!(
                    o.to_axis_fields(),
                    (y, x, xf),
                    "round-trip failed for y={y:?} x={x:?} x_first={xf}",
                );
            }
        }
    }
}

#[test]
fn orientation_all_eight_variants_are_distinct() {
    let mut seen = HashSet::new();
    for &y in &[Decreasing, Increasing] {
        for &x in &[Decreasing, Increasing] {
            for &xf in &[false, true] {
                seen.insert(Orientation::from_axis_fields(y, x, xf));
            }
        }
    }
    assert_eq!(
        seen.len(),
        8,
        "expected 8 distinct orientations, got {}",
        seen.len()
    );
}

#[test]
fn orientation_named_forms_match_spec_table() {
    assert_eq!(
        Orientation::Standard.to_axis_fields(),
        (Decreasing, Increasing, false)
    );
    assert_eq!(
        Orientation::FlipX.to_axis_fields(),
        (Decreasing, Decreasing, false)
    );
    assert_eq!(
        Orientation::Rotate180.to_axis_fields(),
        (Increasing, Decreasing, false)
    );
    assert_eq!(
        Orientation::FlipY.to_axis_fields(),
        (Increasing, Increasing, false)
    );
    assert_eq!(
        Orientation::Rotate90Cw.to_axis_fields(),
        (Increasing, Increasing, true)
    );
    assert_eq!(
        Orientation::Rotate90CwFlipY.to_axis_fields(),
        (Increasing, Decreasing, true)
    );
    assert_eq!(
        Orientation::Rotate90Ccw.to_axis_fields(),
        (Decreasing, Decreasing, true)
    );
    assert_eq!(
        Orientation::Rotate90CcwFlipY.to_axis_fields(),
        (Decreasing, Increasing, true)
    );
}

#[test]
fn orientation_resolution_templates_match_spec_strings() {
    assert_eq!(Orientation::Standard.resolution_template(), "-Y %d +X %d");
    assert_eq!(Orientation::FlipX.resolution_template(), "-Y %d -X %d");
    assert_eq!(Orientation::Rotate180.resolution_template(), "+Y %d -X %d");
    assert_eq!(Orientation::FlipY.resolution_template(), "+Y %d +X %d");
    assert_eq!(Orientation::Rotate90Cw.resolution_template(), "+X %d +Y %d");
    assert_eq!(
        Orientation::Rotate90CwFlipY.resolution_template(),
        "-X %d +Y %d"
    );
    assert_eq!(
        Orientation::Rotate90Ccw.resolution_template(),
        "-X %d -Y %d"
    );
    assert_eq!(
        Orientation::Rotate90CcwFlipY.resolution_template(),
        "+X %d -Y %d"
    );
}

#[test]
fn orientation_is_x_first_flags_rotation_variants() {
    assert!(!Orientation::Standard.is_x_first());
    assert!(!Orientation::FlipX.is_x_first());
    assert!(!Orientation::Rotate180.is_x_first());
    assert!(!Orientation::FlipY.is_x_first());
    assert!(Orientation::Rotate90Cw.is_x_first());
    assert!(Orientation::Rotate90CwFlipY.is_x_first());
    assert!(Orientation::Rotate90Ccw.is_x_first());
    assert!(Orientation::Rotate90CcwFlipY.is_x_first());
}

#[test]
fn header_orientation_round_trips_via_setter() {
    let all = [
        Orientation::Standard,
        Orientation::FlipX,
        Orientation::Rotate180,
        Orientation::FlipY,
        Orientation::Rotate90Cw,
        Orientation::Rotate90CwFlipY,
        Orientation::Rotate90Ccw,
        Orientation::Rotate90CcwFlipY,
    ];
    for o in all {
        let mut h = HdrHeader::default();
        h.set_orientation(o);
        assert_eq!(h.orientation(), o);
    }
}

#[test]
fn default_header_orientation_is_standard() {
    assert_eq!(HdrHeader::default().orientation(), Orientation::Standard);
}

#[test]
fn geometric_op_all_lists_eight_distinct_variants() {
    let set: HashSet<_> = GeometricOp::ALL.iter().copied().collect();
    assert_eq!(set.len(), 8, "ALL must enumerate eight distinct ops");
}

#[test]
fn geometric_op_swaps_dimensions_matches_model() {
    for op in GeometricOp::ALL {
        let (_, _, ow, oh) = model(op, 0, 0, 3, 7);
        assert_eq!(
            op.swaps_dimensions(),
            (ow, oh) == (7, 3),
            "{op:?}: swaps_dimensions disagrees with the coordinate model",
        );
    }
}

#[test]
fn geometric_op_inverse_undoes_every_op() {
    let (w, h) = (3i64, 7i64);
    for op in GeometricOp::ALL {
        let inv = op.inverse();
        for y in 0..h {
            for x in 0..w {
                let (mx, my, mw, mh) = model(op, x, y, w, h);
                let (bx, by, bw, bh) = model(inv, mx, my, mw, mh);
                assert_eq!(
                    (bx, by, bw, bh),
                    (x, y, w, h),
                    "{op:?}.inverse() failed to restore ({x},{y})",
                );
            }
        }
        assert_eq!(op.then(inv), GeometricOp::Identity, "{op:?}.then(inverse)");
    }
}

#[test]
fn geometric_op_then_matches_sequential_application() {
    let (w, h) = (3i64, 7i64);
    for a in GeometricOp::ALL {
        for b in GeometricOp::ALL {
            let composed = a.then(b);
            for y in 0..h {
                for x in 0..w {
                    let (ax, ay, aw, ah) = model(a, x, y, w, h);
                    let (bx, by, bw, bh) = model(b, ax, ay, aw, ah);
                    let (cx, cy, cw, ch) = model(composed, x, y, w, h);
                    assert_eq!(
                        (bx, by, bw, bh),
                        (cx, cy, cw, ch),
                        "{a:?}.then({b:?}) != sequential at ({x},{y})",
                    );
                }
            }
        }
    }
}

#[test]
fn geometric_op_then_is_closed_and_associative() {
    for a in GeometricOp::ALL {
        for b in GeometricOp::ALL {
            assert!(GeometricOp::ALL.contains(&a.then(b)), "{a:?}·{b:?} escaped");
            for c in GeometricOp::ALL {
                assert_eq!(
                    a.then(b).then(c),
                    a.then(b.then(c)),
                    "associativity failed for {a:?},{b:?},{c:?}",
                );
            }
        }
    }
}

#[test]
fn orientation_display_transform_round_trips() {
    let orientations = [
        Orientation::Standard,
        Orientation::FlipX,
        Orientation::Rotate180,
        Orientation::FlipY,
        Orientation::Rotate90Cw,
        Orientation::Rotate90CwFlipY,
        Orientation::Rotate90Ccw,
        Orientation::Rotate90CcwFlipY,
    ];
    let mut ops = HashSet::new();
    for o in orientations {
        let op = o.display_transform();
        ops.insert(op);
        assert_eq!(
            Orientation::from_display_transform(op),
            o,
            "{o:?} did not round-trip through its display transform",
        );
    }
    assert_eq!(ops.len(), 8, "display_transform is not a bijection");
}

#[test]
fn orientation_x_first_iff_display_transform_swaps_dimensions() {
    for op in GeometricOp::ALL {
        let o = Orientation::from_display_transform(op);
        assert_eq!(
            o.is_x_first(),
            op.swaps_dimensions(),
            "{o:?} / {op:?}: x_first vs dimension-swap mismatch",
        );
    }
}
