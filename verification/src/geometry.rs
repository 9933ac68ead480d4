//! The resolution-line axis flags, the eight named orientations a Radiance
//! resolution string can encode, and the dihedral group `D4` of rigid
//! rectangle symmetries those orientations describe.

use vstd::prelude::*;

verus! {

/// Sign on a resolution-line axis flag.
#[derive(Debug, Clone, Copy, PartialEq, Eq, Hash, Structural)]
pub enum AxisSign {
    /// `+` — index increases with array position.
    Increasing,
    /// `-` — index decreases with array position.
    Decreasing,
}

impl AxisSign {
    /// The literal `+` or `-` the resolution line uses.
    pub fn as_str(&self) -> (r: &'static str)
        ensures
            r@ == (match *self {
                AxisSign::Increasing => "+"@,
                AxisSign::Decreasing => "-"@,
            }),
    {
        match self {
            AxisSign::Increasing => "+",
            AxisSign::Decreasing => "-",
        }
    }
}

/// The eight named geometric orientations of the resolution string.
///
/// | Resolution string | Variant            |
/// |-------------------|--------------------|
/// | `-Y N +X M`       | `Standard`         |
/// | `-Y N -X M`       | `FlipX`            |
/// | `+Y N -X M`       | `Rotate180`        |
/// | `+Y N +X M`       | `FlipY`            |
/// | `+X M +Y N`       | `Rotate90Cw`       |
/// | `-X M +Y N`       | `Rotate90CwFlipY`  |
/// | `-X M -Y N`       | `Rotate90Ccw`      |
/// | `+X M -Y N`       | `Rotate90CcwFlipY` |
#[derive(Debug, Clone, Copy, PartialEq, Eq, Hash, Structural)]
pub enum Orientation {
    /// `-Y N +X M`.
    Standard,
    /// `-Y N -X M`.
    FlipX,
    /// `+Y N -X M`.
    Rotate180,
    /// `+Y N +X M`.
    FlipY,
    /// `+X M +Y N`.
    Rotate90Cw,
    /// `-X M +Y N`.
    Rotate90CwFlipY,
    /// `-X M -Y N`.
    Rotate90Ccw,
    /// `+X M -Y N`.
    Rotate90CcwFlipY,
}

/// The `(y_sign, x_sign, x_first)` triple of a named orientation, as the
/// table above assigns it.
pub open spec fn axis_fields_of(o: Orientation) -> (AxisSign, AxisSign, bool) {
    match o {
        Orientation::Standard => (AxisSign::Decreasing, AxisSign::Increasing, false),
        Orientation::FlipX => (AxisSign::Decreasing, AxisSign::Decreasing, false),
        Orientation::Rotate180 => (AxisSign::Increasing, AxisSign::Decreasing, false),
        Orientation::FlipY => (AxisSign::Increasing, AxisSign::Increasing, false),
        Orientation::Rotate90Cw => (AxisSign::Increasing, AxisSign::Increasing, true),
        Orientation::Rotate90CwFlipY => (AxisSign::Increasing, AxisSign::Decreasing, true),
        Orientation::Rotate90Ccw => (AxisSign::Decreasing, AxisSign::Decreasing, true),
        Orientation::Rotate90CcwFlipY => (AxisSign::Decreasing, AxisSign::Increasing, true),
    }
}

/// The printf-style resolution-line template of a named orientation.
pub open spec fn template_of(o: Orientation) -> Seq<char> {
    match o {
        Orientation::Standard => "-Y %d +X %d"@,
        Orientation::FlipX => "-Y %d -X %d"@,
        Orientation::Rotate180 => "+Y %d -X %d"@,
        Orientation::FlipY => "+Y %d +X %d"@,
        Orientation::Rotate90Cw => "+X %d +Y %d"@,
        Orientation::Rotate90CwFlipY => "-X %d +Y %d"@,
        Orientation::Rotate90Ccw => "-X %d -Y %d"@,
        Orientation::Rotate90CcwFlipY => "+X %d -Y %d"@,
    }
}

/// The geometric symmetry carrying the standard picture onto the picture
/// the orientation describes.
pub open spec fn display_op_of(o: Orientation) -> GeometricOp {
    match o {
        Orientation::Standard => GeometricOp::Identity,
        Orientation::FlipX => GeometricOp::FlipHorizontal,
        Orientation::Rotate180 => GeometricOp::Rotate180,
        Orientation::FlipY => GeometricOp::FlipVertical,
        Orientation::Rotate90Cw => GeometricOp::Rotate90Cw,
        Orientation::Rotate90CwFlipY => GeometricOp::Transpose,
        Orientation::Rotate90Ccw => GeometricOp::Rotate90Ccw,
        Orientation::Rotate90CcwFlipY => GeometricOp::AntiTranspose,
    }
}

impl Orientation {
    /// The orientation whose axis fields are `(y_sign, x_sign, x_first)`.
    /// Total over all eight triples.
    pub fn from_axis_fields(y_sign: AxisSign, x_sign: AxisSign, x_first: bool) -> (r: Orientation)
        ensures
            axis_fields_of(r) == (y_sign, x_sign, x_first),
    {
        match (x_first, y_sign, x_sign) {
            (false, AxisSign::Decreasing, AxisSign::Increasing) => Orientation::Standard,
            (false, AxisSign::Decreasing, AxisSign::Decreasing) => Orientation::FlipX,
            (false, AxisSign::Increasing, AxisSign::Decreasing) => Orientation::Rotate180,
            (false, AxisSign::Increasing, AxisSign::Increasing) => Orientation::FlipY,
            (true, AxisSign::Increasing, AxisSign::Increasing) => Orientation::Rotate90Cw,
            (true, AxisSign::Increasing, AxisSign::Decreasing) => Orientation::Rotate90CwFlipY,
            (true, AxisSign::Decreasing, AxisSign::Decreasing) => Orientation::Rotate90Ccw,
            (true, AxisSign::Decreasing, AxisSign::Increasing) => Orientation::Rotate90CcwFlipY,
        }
    }

    /// The `(y_sign, x_sign, x_first)` triple this orientation encodes.
    pub fn to_axis_fields(self) -> (r: (AxisSign, AxisSign, bool))
        ensures
            r == axis_fields_of(self),
    {
        match self {
            Orientation::Standard => (AxisSign::Decreasing, AxisSign::Increasing, false),
            Orientation::FlipX => (AxisSign::Decreasing, AxisSign::Decreasing, false),
            Orientation::Rotate180 => (AxisSign::Increasing, AxisSign::Decreasing, false),
            Orientation::FlipY => (AxisSign::Increasing, AxisSign::Increasing, false),
            Orientation::Rotate90Cw => (AxisSign::Increasing, AxisSign::Increasing, true),
            Orientation::Rotate90CwFlipY => (AxisSign::Increasing, AxisSign::Decreasing, true),
            Orientation::Rotate90Ccw => (AxisSign::Decreasing, AxisSign::Decreasing, true),
            Orientation::Rotate90CcwFlipY => (AxisSign::Decreasing, AxisSign::Increasing, true),
        }
    }

    /// `true` when the resolution line lists the X axis first.
    pub fn is_x_first(self) -> (r: bool)
        ensures
            r == axis_fields_of(self).2,
    {
        self.to_axis_fields().2
    }

    /// The printf-style resolution-line template, `%d` standing for the
    /// two dimensions in on-disk order.
    pub fn resolution_template(self) -> (r: &'static str)
        ensures
            r@ == template_of(self),
    {
        match self {
            Orientation::Standard => "-Y %d +X %d",
            Orientation::FlipX => "-Y %d -X %d",
            Orientation::Rotate180 => "+Y %d -X %d",
            Orientation::FlipY => "+Y %d +X %d",
            Orientation::Rotate90Cw => "+X %d +Y %d",
            Orientation::Rotate90CwFlipY => "-X %d +Y %d",
            Orientation::Rotate90Ccw => "-X %d -Y %d",
            Orientation::Rotate90CcwFlipY => "+X %d -Y %d",
        }
    }

    /// The symmetry that carries the standard picture onto this one.
    pub fn display_transform(self) -> (r: GeometricOp)
        ensures
            r == display_op_of(self),
    {
        match self {
            Orientation::Standard => GeometricOp::Identity,
            Orientation::FlipX => GeometricOp::FlipHorizontal,
            Orientation::Rotate180 => GeometricOp::Rotate180,
            Orientation::FlipY => GeometricOp::FlipVertical,
            Orientation::Rotate90Cw => GeometricOp::Rotate90Cw,
            Orientation::Rotate90CwFlipY => GeometricOp::Transpose,
            Orientation::Rotate90Ccw => GeometricOp::Rotate90Ccw,
            Orientation::Rotate90CcwFlipY => GeometricOp::AntiTranspose,
        }
    }

    /// The orientation whose display transform is `op`.
    pub fn from_display_transform(op: GeometricOp) -> (r: Orientation)
        ensures
            display_op_of(r) == op,
    {
        match op {
            GeometricOp::Identity => Orientation::Standard,
            GeometricOp::FlipHorizontal => Orientation::FlipX,
            GeometricOp::Rotate180 => Orientation::Rotate180,
            GeometricOp::FlipVertical => Orientation::FlipY,
            GeometricOp::Rotate90Cw => Orientation::Rotate90Cw,
            GeometricOp::Transpose => Orientation::Rotate90CwFlipY,
            GeometricOp::Rotate90Ccw => Orientation::Rotate90Ccw,
            GeometricOp::AntiTranspose => Orientation::Rotate90CcwFlipY,
        }
    }
}

/// One of the eight rigid symmetries of a rectangle.
#[derive(Debug, Clone, Copy, PartialEq, Eq, Hash, Structural)]
pub enum GeometricOp {
    /// Leave the picture unchanged.
    Identity,
    /// Mirror left↔right.
    FlipHorizontal,
    /// Mirror top↔bottom.
    FlipVertical,
    /// Rotate 180°.
    Rotate180,
    /// Rotate 90° clockwise. Swaps width and height.
    Rotate90Cw,
    /// Rotate 90° counter-clockwise. Swaps width and height.
    Rotate90Ccw,
    /// Reflect across the main diagonal. Swaps width and height.
    Transpose,
    /// Reflect across the anti-diagonal. Swaps width and height.
    AntiTranspose,
}

/// Where the op sends pixel `(x, y)` of a `w × h` picture, together with
/// the output dimensions: `(dst_x, dst_y, out_w, out_h)`.
pub open spec fn op_place(op: GeometricOp, p: (int, int, int, int)) -> (int, int, int, int) {
    let (x, y, w, h) = p;
    match op {
        GeometricOp::Identity => (x, y, w, h),
        GeometricOp::FlipHorizontal => (w - 1 - x, y, w, h),
        GeometricOp::FlipVertical => (x, h - 1 - y, w, h),
        GeometricOp::Rotate180 => (w - 1 - x, h - 1 - y, w, h),
        GeometricOp::Rotate90Cw => (h - 1 - y, x, h, w),
        GeometricOp::Rotate90Ccw => (y, w - 1 - x, h, w),
        GeometricOp::Transpose => (y, x, h, w),
        GeometricOp::AntiTranspose => (h - 1 - y, w - 1 - x, h, w),
    }
}

/// `true` for the four ops that exchange width and height.
pub open spec fn op_swaps(op: GeometricOp) -> bool {
    match op {
        GeometricOp::Rotate90Cw | GeometricOp::Rotate90Ccw | GeometricOp::Transpose
        | GeometricOp::AntiTranspose => true,
        _ => false,
    }
}

/// The inverse of an op: the two quarter turns swap, the other six are
/// their own inverse.
pub open spec fn inverse_op(op: GeometricOp) -> GeometricOp {
    match op {
        GeometricOp::Rotate90Cw => GeometricOp::Rotate90Ccw,
        GeometricOp::Rotate90Ccw => GeometricOp::Rotate90Cw,
        other => other,
    }
}

/// Two ops that act alike on every pixel of every picture.
pub open spec fn same_action(a: GeometricOp, b: GeometricOp) -> bool {
    forall|p: (int, int, int, int)| #[trigger] op_place(a, p) == op_place(b, p)
}

/// Applying `b` after `a`, pointwise.
pub open spec fn acts_as_composite(r: GeometricOp, a: GeometricOp, b: GeometricOp) -> bool {
    forall|p: (int, int, int, int)| #[trigger] op_place(r, p) == op_place(b, op_place(a, p))
}

/// Reversing `a`, pointwise.
pub open spec fn acts_as_inverse(r: GeometricOp, a: GeometricOp) -> bool {
    forall|p: (int, int, int, int)| #[trigger] op_place(r, op_place(a, p)) == p
}

impl GeometricOp {
    /// All eight symmetries, in a stable order.
    pub const ALL: [GeometricOp; 8] = [
        GeometricOp::Identity,
        GeometricOp::FlipHorizontal,
        GeometricOp::FlipVertical,
        GeometricOp::Rotate180,
        GeometricOp::Rotate90Cw,
        GeometricOp::Rotate90Ccw,
        GeometricOp::Transpose,
        GeometricOp::AntiTranspose,
    ];

    /// `true` when the op exchanges the picture's width and height.
    pub fn swaps_dimensions(self) -> (r: bool)
        ensures
            r == op_swaps(self),
            forall|p: (int, int, int, int)|
                #![trigger op_place(self, p)]
                r ==> op_place(self, p).2 == p.3 && op_place(self, p).3 == p.2,
            forall|p: (int, int, int, int)|
                #![trigger op_place(self, p)]
                !r ==> op_place(self, p).2 == p.2 && op_place(self, p).3 == p.3,
    {
        match self {
            GeometricOp::Rotate90Cw | GeometricOp::Rotate90Ccw | GeometricOp::Transpose
            | GeometricOp::AntiTranspose => true,
            _ => false,
        }
    }

    /// The inverse symmetry: it undoes `self` on every pixel.
    pub fn inverse(self) -> (r: GeometricOp)
        ensures
            r == inverse_op(self),
            acts_as_inverse(r, self),
            acts_as_inverse(self, r),
    {
        match self {
            GeometricOp::Rotate90Cw => GeometricOp::Rotate90Ccw,
            GeometricOp::Rotate90Ccw => GeometricOp::Rotate90Cw,
            other => other,
        }
    }

    /// The single op equal to applying `self` first, then `next`.
    pub fn then(self, next: GeometricOp) -> (r: GeometricOp)
        ensures
            acts_as_composite(r, self, next),
    {
        let (r0, m0) = self.to_rot_mirror();
        let (r1, m1) = next.to_rot_mirror();
        let r = if m0 {
            (r0 + 4 - r1) % 4
        } else {
            (r0 + r1) % 4
        };
        let m = m0 != m1;
        let out = Self::from_rot_mirror(r, m);
        proof {
            lemma_composite_by_cases(self, next);
        }
        out
    }

    /// Normal form: the number of 90° counter-clockwise rotations and
    /// whether a horizontal mirror follows.
    fn to_rot_mirror(self) -> (r: (u8, bool))
        ensures
            r.0 < 4,
            r == rot_mirror_of(self),
    {
        match self {
            GeometricOp::Identity => (0, false),
            GeometricOp::Rotate90Ccw => (1, false),
            GeometricOp::Rotate180 => (2, false),
            GeometricOp::Rotate90Cw => (3, false),
            GeometricOp::FlipHorizontal => (0, true),
            GeometricOp::AntiTranspose => (1, true),
            GeometricOp::FlipVertical => (2, true),
            GeometricOp::Transpose => (3, true),
        }
    }

    fn from_rot_mirror(r: u8, m: bool) -> (out: GeometricOp)
        requires
            r < 4,
        ensures
            rot_mirror_of(out) == (r, m),
    {
        match (r, m) {
            (0, false) => GeometricOp::Identity,
            (1, false) => GeometricOp::Rotate90Ccw,
            (2, false) => GeometricOp::Rotate180,
            (3, false) => GeometricOp::Rotate90Cw,
            (0, true) => GeometricOp::FlipHorizontal,
            (1, true) => GeometricOp::AntiTranspose,
            (2, true) => GeometricOp::FlipVertical,
            _ => GeometricOp::Transpose,
        }
    }
}

/// The rotation / mirror normal form of an op.
pub open spec fn rot_mirror_of(op: GeometricOp) -> (u8, bool) {
    match op {
        GeometricOp::Identity => (0, false),
        GeometricOp::Rotate90Ccw => (1, false),
        GeometricOp::Rotate180 => (2, false),
        GeometricOp::Rotate90Cw => (3, false),
        GeometricOp::FlipHorizontal => (0, true),
        GeometricOp::AntiTranspose => (1, true),
        GeometricOp::FlipVertical => (2, true),
        GeometricOp::Transpose => (3, true),
    }
}

/// The normal-form product the exec composition computes.
pub open spec fn rot_mirror_product(a: GeometricOp, b: GeometricOp) -> (u8, bool) {
    let (r0, m0) = rot_mirror_of(a);
    let (r1, m1) = rot_mirror_of(b);
    (if m0 {
        ((r0 + 4 - r1) % 4) as u8
    } else {
        ((r0 + r1) % 4) as u8
    }, m0 != m1)
}

proof fn lemma_composite_by_cases(a: GeometricOp, b: GeometricOp)
    ensures
        forall|c: GeometricOp|
            rot_mirror_of(c) == rot_mirror_product(a, b) ==> #[trigger] acts_as_composite(c, a, b),
{
    assert forall|c: GeometricOp|
        rot_mirror_of(c) == rot_mirror_product(a, b) implies #[trigger] acts_as_composite(c, a, b) by {
        assert forall|p: (int, int, int, int)| #[trigger]
            op_place(c, p) == op_place(b, op_place(a, p)) by {
            match a {
                GeometricOp::Identity => {},
                GeometricOp::FlipHorizontal => {},
                GeometricOp::FlipVertical => {},
                GeometricOp::Rotate180 => {},
                GeometricOp::Rotate90Cw => {},
                GeometricOp::Rotate90Ccw => {},
                GeometricOp::Transpose => {},
                GeometricOp::AntiTranspose => {},
            }
        }
    }
}


/// Two ops that act alike on every pixel are the same op: the action of an
/// op on pictures determines it.
pub proof fn lemma_action_determines_op(a: GeometricOp, b: GeometricOp)
    requires
        same_action(a, b),
    ensures
        a == b,
{
    let p = (0int, 0int, 3int, 7int);
    let q = (1int, 0int, 3int, 7int);
    assert(op_place(a, p) == op_place(b, p));
    assert(op_place(a, q) == op_place(b, q));
}

/// Composition is associative: `(a then b) then c` and `a then (b then c)`
/// are the same op.
pub proof fn law_then_associative(
    a: GeometricOp,
    b: GeometricOp,
    c: GeometricOp,
    ab: GeometricOp,
    bc: GeometricOp,
    left: GeometricOp,
    right: GeometricOp,
)
    requires
        acts_as_composite(ab, a, b),
        acts_as_composite(bc, b, c),
        acts_as_composite(left, ab, c),
        acts_as_composite(right, a, bc),
    ensures
        left == right,
{
    assert forall|p: (int, int, int, int)| #[trigger] op_place(left, p) == op_place(right, p) by {
        assert(op_place(left, p) == op_place(c, op_place(ab, p)));
        assert(op_place(ab, p) == op_place(b, op_place(a, p)));
        assert(op_place(right, p) == op_place(bc, op_place(a, p)));
        assert(op_place(bc, op_place(a, p)) == op_place(c, op_place(b, op_place(a, p))));
    }
    lemma_action_determines_op(left, right);
}

/// An op composed with its inverse, in either order, is the identity.
pub proof fn law_then_inverse_is_identity(op: GeometricOp, inv: GeometricOp, c: GeometricOp, d: GeometricOp)
    requires
        acts_as_inverse(inv, op),
        acts_as_inverse(op, inv),
        acts_as_composite(c, op, inv),
        acts_as_composite(d, inv, op),
    ensures
        c == GeometricOp::Identity,
        d == GeometricOp::Identity,
{
    assert forall|p: (int, int, int, int)| #[trigger] op_place(c, p) == op_place(GeometricOp::Identity, p) by {
        assert(op_place(c, p) == op_place(inv, op_place(op, p)));
    }
    assert forall|p: (int, int, int, int)| #[trigger] op_place(d, p) == op_place(GeometricOp::Identity, p) by {
        assert(op_place(d, p) == op_place(op, op_place(inv, p)));
    }
    lemma_action_determines_op(c, GeometricOp::Identity);
    lemma_action_determines_op(d, GeometricOp::Identity);
}

/// The axis-field triple names exactly one orientation, and every triple
/// is named: `from_axis_fields` and `to_axis_fields` are mutual inverses.
pub proof fn law_axis_fields_bijective(o1: Orientation, o2: Orientation, y: AxisSign, x: AxisSign, xf: bool)
    ensures
        axis_fields_of(o1) == axis_fields_of(o2) ==> o1 == o2,
        exists|o: Orientation| axis_fields_of(o) == (y, x, xf),
{
    let o = match (xf, y, x) {
        (false, AxisSign::Decreasing, AxisSign::Increasing) => Orientation::Standard,
        (false, AxisSign::Decreasing, AxisSign::Decreasing) => Orientation::FlipX,
        (false, AxisSign::Increasing, AxisSign::Decreasing) => Orientation::Rotate180,
        (false, AxisSign::Increasing, AxisSign::Increasing) => Orientation::FlipY,
        (true, AxisSign::Increasing, AxisSign::Increasing) => Orientation::Rotate90Cw,
        (true, AxisSign::Increasing, AxisSign::Decreasing) => Orientation::Rotate90CwFlipY,
        (true, AxisSign::Decreasing, AxisSign::Decreasing) => Orientation::Rotate90Ccw,
        (true, AxisSign::Decreasing, AxisSign::Increasing) => Orientation::Rotate90CcwFlipY,
    };
    assert(axis_fields_of(o) == (y, x, xf));
}

/// The display transform names exactly one orientation, and every op is
/// the display transform of some orientation.
pub proof fn law_display_transform_bijective(o1: Orientation, o2: Orientation, op: GeometricOp)
    ensures
        display_op_of(o1) == display_op_of(o2) ==> o1 == o2,
        exists|o: Orientation| display_op_of(o) == op,
{
    let o = match op {
        GeometricOp::Identity => Orientation::Standard,
        GeometricOp::FlipHorizontal => Orientation::FlipX,
        GeometricOp::Rotate180 => Orientation::Rotate180,
        GeometricOp::FlipVertical => Orientation::FlipY,
        GeometricOp::Rotate90Cw => Orientation::Rotate90Cw,
        GeometricOp::Transpose => Orientation::Rotate90CwFlipY,
        GeometricOp::Rotate90Ccw => Orientation::Rotate90Ccw,
        GeometricOp::AntiTranspose => Orientation::Rotate90CcwFlipY,
    };
    assert(display_op_of(o) == op);
}

/// An orientation lists X first exactly when its display transform
/// exchanges width and height.
pub proof fn law_x_first_iff_swaps(o: Orientation)
    ensures
        axis_fields_of(o).2 == op_swaps(display_op_of(o)),
{
}


/// Inverting twice gives the op back; the two quarter turns are each
/// other's inverse and every other op is its own.
pub proof fn law_inverse_involutive(op: GeometricOp)
    ensures
        inverse_op(inverse_op(op)) == op,
        inverse_op(op) == (match op {
            GeometricOp::Rotate90Cw => GeometricOp::Rotate90Ccw,
            GeometricOp::Rotate90Ccw => GeometricOp::Rotate90Cw,
            other => other,
        }),
        acts_as_inverse(inverse_op(op), op),
        acts_as_inverse(op, inverse_op(op)),
{
    match op {
        GeometricOp::Identity => {},
        GeometricOp::FlipHorizontal => {},
        GeometricOp::FlipVertical => {},
        GeometricOp::Rotate180 => {},
        GeometricOp::Rotate90Cw => {},
        GeometricOp::Rotate90Ccw => {},
        GeometricOp::Transpose => {},
        GeometricOp::AntiTranspose => {},
    }
}


/// The resolution-line template of an orientation spells its axis fields:
/// the X flag comes first exactly when X is listed first, and each flag's
/// sign is `+` for an increasing axis and `-` for a decreasing one.
pub proof fn law_template_spells_axis_fields(o: Orientation)
    ensures
        template_of(o) == ({
            let (ys, xs, xf) = axis_fields_of(o);
            let sy = if ys == AxisSign::Increasing { '+' } else { '-' };
            let sx = if xs == AxisSign::Increasing { '+' } else { '-' };
            if xf {
                seq![sx, 'X', ' ', '%', 'd', ' ', sy, 'Y', ' ', '%', 'd']
            } else {
                seq![sy, 'Y', ' ', '%', 'd', ' ', sx, 'X', ' ', '%', 'd']
            }
        }),
{
    match o {
        Orientation::Standard => {
            reveal_strlit("-Y %d +X %d");
            assert("-Y %d +X %d"@ =~= seq!['-', 'Y', ' ', '%', 'd', ' ', '+', 'X', ' ', '%', 'd']);
        },
        Orientation::FlipX => {
            reveal_strlit("-Y %d -X %d");
            assert("-Y %d -X %d"@ =~= seq!['-', 'Y', ' ', '%', 'd', ' ', '-', 'X', ' ', '%', 'd']);
        },
        Orientation::Rotate180 => {
            reveal_strlit("+Y %d -X %d");
            assert("+Y %d -X %d"@ =~= seq!['+', 'Y', ' ', '%', 'd', ' ', '-', 'X', ' ', '%', 'd']);
        },
        Orientation::FlipY => {
            reveal_strlit("+Y %d +X %d");
            assert("+Y %d +X %d"@ =~= seq!['+', 'Y', ' ', '%', 'd', ' ', '+', 'X', ' ', '%', 'd']);
        },
        Orientation::Rotate90Cw => {
            reveal_strlit("+X %d +Y %d");
            assert("+X %d +Y %d"@ =~= seq!['+', 'X', ' ', '%', 'd', ' ', '+', 'Y', ' ', '%', 'd']);
        },
        Orientation::Rotate90CwFlipY => {
            reveal_strlit("-X %d +Y %d");
            assert("-X %d +Y %d"@ =~= seq!['-', 'X', ' ', '%', 'd', ' ', '+', 'Y', ' ', '%', 'd']);
        },
        Orientation::Rotate90Ccw => {
            reveal_strlit("-X %d -Y %d");
            assert("-X %d -Y %d"@ =~= seq!['-', 'X', ' ', '%', 'd', ' ', '-', 'Y', ' ', '%', 'd']);
        },
        Orientation::Rotate90CcwFlipY => {
            reveal_strlit("+X %d -Y %d");
            assert("+X %d -Y %d"@ =~= seq!['+', 'X', ' ', '%', 'd', ' ', '-', 'Y', ' ', '%', 'd']);
        },
    }
}

} // verus!
