//! Alignment of a hint box inside a container rectangle.
//!
//! A container and the placed box are rectangles `(x, y, width, height)`.
//! The margin is an exact non-negative rational factor of the container's
//! relevant dimension; the inset it produces is rounded down to whole units.

use vstd::prelude::*;
use crate::strutil::str_eq;

verus! {

#[derive(Debug, Clone, Copy, PartialEq, Eq, Hash, Structural)]
pub enum HorizontalAlign {
    Left,
    Center,
    Right,
}

#[derive(Debug, Clone, Copy, PartialEq, Eq, Hash, Structural)]
pub enum VerticalAlign {
    Top,
    Center,
    Bottom,
}

pub open spec fn spec_parse_horizontal(s: Seq<char>) -> Result<HorizontalAlign, ()> {
    if s == "left"@ {
        Ok(HorizontalAlign::Left)
    } else if s == "center"@ {
        Ok(HorizontalAlign::Center)
    } else if s == "right"@ {
        Ok(HorizontalAlign::Right)
    } else {
        Err(())
    }
}

pub open spec fn spec_parse_vertical(s: Seq<char>) -> Result<VerticalAlign, ()> {
    if s == "top"@ {
        Ok(VerticalAlign::Top)
    } else if s == "center"@ {
        Ok(VerticalAlign::Center)
    } else if s == "bottom"@ {
        Ok(VerticalAlign::Bottom)
    } else {
        Err(())
    }
}

impl HorizontalAlign {
    /// Parse one of the keywords `left`, `center`, `right`; anything else is rejected.
    pub fn parse(s: &str) -> (r: Result<HorizontalAlign, ()>)
        ensures
            r == spec_parse_horizontal(s@),
    {
        if str_eq(s, "left") {
            Ok(HorizontalAlign::Left)
        } else if str_eq(s, "center") {
            Ok(HorizontalAlign::Center)
        } else if str_eq(s, "right") {
            Ok(HorizontalAlign::Right)
        } else {
            Err(())
        }
    }
}

impl core::str::FromStr for HorizontalAlign {
    type Err = ();

    fn from_str(s: &str) -> Result<HorizontalAlign, ()> {
        HorizontalAlign::parse(s)
    }
}

impl VerticalAlign {
    /// Parse one of the keywords `top`, `center`, `bottom`; anything else is rejected.
    pub fn parse(s: &str) -> (r: Result<VerticalAlign, ()>)
        ensures
            r == spec_parse_vertical(s@),
    {
        if str_eq(s, "top") {
            Ok(VerticalAlign::Top)
        } else if str_eq(s, "center") {
            Ok(VerticalAlign::Center)
        } else if str_eq(s, "bottom") {
            Ok(VerticalAlign::Bottom)
        } else {
            Err(())
        }
    }
}

impl core::str::FromStr for VerticalAlign {
    type Err = ();

    fn from_str(s: &str) -> Result<VerticalAlign, ()> {
        VerticalAlign::parse(s)
    }
}

/// A margin factor, held exactly as the rational `num / den`.
///
/// A well-formed margin lies in `[0, 1]`: the inset it yields never exceeds
/// the dimension it is taken of.
#[derive(Debug, Clone, Copy, PartialEq, Eq, Structural)]
pub struct Margin {
    pub num: u32,
    pub den: u32,
}

impl Margin {
    pub open spec fn wf(self) -> bool {
        self.den > 0 && self.num <= self.den
    }

    /// The margin factor zero: no inset at all.
    pub fn zero() -> (r: Margin)
        ensures
            r.wf(),
            r.num == 0,
            r.den == 1,
    {
        Margin { num: 0, den: 1 }
    }

    /// Build a margin factor `num / den`; rejected unless it is a
    /// well-formed factor in `[0, 1]`.
    pub fn new(num: u32, den: u32) -> (r: Option<Margin>)
        ensures
            r is Some <==> den > 0 && num <= den,
            r is Some ==> r->0 == (Margin { num, den }) && r->0.wf(),
    {
        if den > 0 && num <= den {
            Some(Margin { num, den })
        } else {
            None
        }
    }
}

/// The inset a margin factor takes of a dimension, rounded down.
pub open spec fn spec_inset(m: Margin, dim: u32) -> int {
    (m.num * dim) / (m.den as int)
}

/// Horizontal coordinate of the placed box.
pub open spec fn spec_place_x(container: (u32, u32, u32, u32), box_w: u32, h: HorizontalAlign, m: Margin) -> int {
    match h {
        HorizontalAlign::Left => container.0 + spec_inset(m, container.2),
        HorizontalAlign::Center => if container.2 >= box_w {
            container.0 + (container.2 - box_w) / 2
        } else {
            container.0 - (box_w - container.2) / 2
        },
        HorizontalAlign::Right => container.0 + container.2 - box_w - spec_inset(m, container.2),
    }
}

/// Vertical coordinate of the placed box.
pub open spec fn spec_place_y(container: (u32, u32, u32, u32), box_h: u32, v: VerticalAlign, m: Margin) -> int {
    match v {
        VerticalAlign::Top => container.1 + spec_inset(m, container.3),
        VerticalAlign::Center => if container.3 >= box_h {
            container.1 + (container.3 - box_h) / 2
        } else {
            container.1 - (box_h - container.3) / 2
        },
        VerticalAlign::Bottom => container.1 + container.3 - box_h - spec_inset(m, container.3),
    }
}

/// Compute the inset of a margin over one dimension.
fn inset(m: Margin, dim: u32) -> (r: u32)
    requires
        m.wf(),
    ensures
        r == spec_inset(m, dim),
        r <= dim,
{
    proof {
        assert((m.num as int) * (dim as int) <= (0xFFFF_FFFFint) * (0xFFFF_FFFFint)) by (nonlinear_arith)
            requires 0 <= m.num <= 0xFFFF_FFFF && 0 <= dim <= 0xFFFF_FFFF;
    }
    let w: u64 = (m.num as u64) * (dim as u64) / (m.den as u64);
    proof {
        assert(m.num * dim <= m.den * dim) by (nonlinear_arith)
            requires m.num <= m.den, dim >= 0;
        assert((m.num * dim) / (m.den as int) <= (m.den * dim) / (m.den as int)) by {
            vstd::arithmetic::div_mod::lemma_div_is_ordered(m.num * dim, m.den * dim, m.den as int);
        }
        assert((m.den * dim) / (m.den as int) == dim) by (nonlinear_arith)
            requires m.den > 0;
    }
    w as u32
}

/// Place a box of size `box_size` inside `container` according to the
/// alignment pair and the margin factor.
///
/// The result is `(x, y, width, height)`; its width and height are exactly
/// `box_size`. The coordinates may leave the container (or even turn
/// negative) when the box does not fit, so they are returned signed; the
/// arithmetic itself never fails.
pub fn place(
    container: (u32, u32, u32, u32),
    box_size: (u32, u32),
    h_align: HorizontalAlign,
    v_align: VerticalAlign,
    margin: Margin,
) -> (r: (i64, i64, u32, u32))
    requires
        margin.wf(),
    ensures
        r.0 == spec_place_x(container, box_size.0, h_align, margin),
        r.1 == spec_place_y(container, box_size.1, v_align, margin),
        r.2 == box_size.0,
        r.3 == box_size.1,
{
    let x: i64 = match h_align {
        HorizontalAlign::Left => container.0 as i64 + inset(margin, container.2) as i64,
        HorizontalAlign::Center => if container.2 >= box_size.0 {
            container.0 as i64 + ((container.2 - box_size.0) / 2) as i64
        } else {
            container.0 as i64 - ((box_size.0 - container.2) / 2) as i64
        },
        HorizontalAlign::Right => {
            container.0 as i64 + container.2 as i64 - box_size.0 as i64
                - inset(margin, container.2) as i64
        },
    };
    let y: i64 = match v_align {
        VerticalAlign::Top => container.1 as i64 + inset(margin, container.3) as i64,
        VerticalAlign::Center => if container.3 >= box_size.1 {
            container.1 as i64 + ((container.3 - box_size.1) / 2) as i64
        } else {
            container.1 as i64 - ((box_size.1 - container.3) / 2) as i64
        },
        VerticalAlign::Bottom => {
            container.1 as i64 + container.3 as i64 - box_size.1 as i64
                - inset(margin, container.3) as i64
        },
    };
    (x, y, box_size.0, box_size.1)
}

/// Resolve the effective alignment configuration: the fill mode forces both
/// alignments to `Center` and disables the margin inset; otherwise the
/// explicit alignments and margin are kept unchanged.
pub fn resolve_alignment(
    fill: bool,
    h_align: HorizontalAlign,
    v_align: VerticalAlign,
    margin: Margin,
) -> (r: (HorizontalAlign, VerticalAlign, Margin))
    ensures
        fill ==> r == (HorizontalAlign::Center, VerticalAlign::Center, Margin { num: 0u32, den: 1u32 }),
        !fill ==> r == (h_align, v_align, margin),
{
    if fill {
        (HorizontalAlign::Center, VerticalAlign::Center, Margin::zero())
    } else {
        (h_align, v_align, margin)
    }
}

/// The placed box stays inside its container whenever the box fits beside
/// its insets: on each axis the box dimension plus the margin inset must not
/// exceed the container dimension. Containment here is the inclusive-edge
/// reading: `container.x <= x` and `x + width <= container.x + container.width`,
/// and likewise vertically.
pub proof fn lemma_place_in_container(
    container: (u32, u32, u32, u32),
    box_size: (u32, u32),
    h_align: HorizontalAlign,
    v_align: VerticalAlign,
    margin: Margin,
)
    requires
        margin.wf(),
        box_size.0 + spec_inset(margin, container.2) <= container.2,
        box_size.1 + spec_inset(margin, container.3) <= container.3,
    ensures
        container.0 <= spec_place_x(container, box_size.0, h_align, margin),
        spec_place_x(container, box_size.0, h_align, margin) + box_size.0 <= container.0 + container.2,
        container.1 <= spec_place_y(container, box_size.1, v_align, margin),
        spec_place_y(container, box_size.1, v_align, margin) + box_size.1 <= container.1 + container.3,
{
    lemma_axis_in_range(container.0, container.2, box_size.0, margin);
    lemma_axis_in_range(container.1, container.3, box_size.1, margin);
    assert(spec_place_x(container, box_size.0, h_align, margin) == axis_place(container.0, container.2, box_size.0, h_axis_kind(h_align), margin));
    assert(spec_place_y(container, box_size.1, v_align, margin) == axis_place(container.1, container.3, box_size.1, v_axis_kind(v_align), margin));
}

/// The three ways a box can sit on one axis.
enum AxisAlign {
    Low,
    Middle,
    High,
}

spec fn h_axis_kind(h: HorizontalAlign) -> AxisAlign {
    match h {
        HorizontalAlign::Left => AxisAlign::Low,
        HorizontalAlign::Center => AxisAlign::Middle,
        HorizontalAlign::Right => AxisAlign::High,
    }
}

spec fn v_axis_kind(v: VerticalAlign) -> AxisAlign {
    match v {
        VerticalAlign::Top => AxisAlign::Low,
        VerticalAlign::Center => AxisAlign::Middle,
        VerticalAlign::Bottom => AxisAlign::High,
    }
}

/// Placement along a single axis: origin and dimension of the container,
/// dimension of the box.
spec fn axis_place(origin: u32, dim: u32, box_dim: u32, a: AxisAlign, m: Margin) -> int {
    match a {
        AxisAlign::Low => origin + spec_inset(m, dim),
        AxisAlign::Middle => if dim >= box_dim {
            origin + (dim - box_dim) / 2
        } else {
            origin - (box_dim - dim) / 2
        },
        AxisAlign::High => origin + dim - box_dim - spec_inset(m, dim),
    }
}

proof fn lemma_axis_in_range(origin: u32, dim: u32, box_dim: u32, m: Margin)
    requires
        m.wf(),
        box_dim + spec_inset(m, dim) <= dim,
    ensures
        forall|a: AxisAlign|
            origin <= #[trigger] axis_place(origin, dim, box_dim, a, m)
                && axis_place(origin, dim, box_dim, a, m) + box_dim <= origin + dim,
{
    lemma_inset_bounds(m, dim);
    assert forall|a: AxisAlign|
        origin <= #[trigger] axis_place(origin, dim, box_dim, a, m)
            && axis_place(origin, dim, box_dim, a, m) + box_dim <= origin + dim by {
        let ins = spec_inset(m, dim);
        match a {
            AxisAlign::Low => {
                assert(axis_place(origin, dim, box_dim, a, m) == origin + ins);
            },
            AxisAlign::Middle => {
                assert(dim >= box_dim);
                vstd::arithmetic::div_mod::lemma_div_is_ordered(0, dim - box_dim, 2);
                vstd::arithmetic::div_mod::lemma_div_is_ordered_by_denominator(dim - box_dim, 1, 2);
                assert((dim - box_dim) / 2 <= dim - box_dim);
            },
            AxisAlign::High => {
                assert(axis_place(origin, dim, box_dim, a, m) == origin + dim - box_dim - ins);
            },
        }
    }
}

proof fn lemma_inset_bounds(m: Margin, dim: u32)
    requires
        m.wf(),
    ensures
        0 <= spec_inset(m, dim) <= dim,
{
    assert(0 <= m.num * dim) by (nonlinear_arith)
        requires m.num >= 0, dim >= 0;
    vstd::arithmetic::div_mod::lemma_div_is_ordered(0, m.num * dim, m.den as int);
    assert(m.num * dim <= m.den * dim) by (nonlinear_arith)
        requires m.num <= m.den, dim >= 0;
    vstd::arithmetic::div_mod::lemma_div_is_ordered(m.num * dim, m.den * dim, m.den as int);
    assert((m.den * dim) / (m.den as int) == dim) by (nonlinear_arith)
        requires m.den > 0;
}

} // verus!
