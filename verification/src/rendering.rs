//! Values that a renderer of the world hands to the graphics interface.

use vstd::prelude::*;
use crate::math::Vec2i;

verus! {

/// What happens to a stencil value when a test has run.
#[derive(PartialEq, Eq, Structural, Copy, Clone, Debug)]
pub enum StencilOp {
    Keep,
    Zero,
    Replace,
    Invert,
}

/// The comparison of a stencil test.
#[derive(PartialEq, Eq, Structural, Copy, Clone, Debug)]
pub enum StencilFunc {
    Never,
    Less,
    LessEqual,
    Equal,
    NotEqual,
    GreaterEqual,
    Greater,
    Always,
}

impl StencilOp {
    /// The operation's OpenGL enumerant.
    pub open spec fn gl_value(self) -> u32 {
        match self {
            StencilOp::Keep => 0x1E00,
            StencilOp::Zero => 0,
            StencilOp::Invert => 0x150A,
            StencilOp::Replace => 0x1E01,
        }
    }

    /// The operation's OpenGL enumerant.
    pub fn to_gl(&self) -> (v: u32)
        ensures
            v == self.gl_value(),
    {
        match *self {
            StencilOp::Keep => 0x1E00,
            StencilOp::Zero => 0,
            StencilOp::Invert => 0x150A,
            StencilOp::Replace => 0x1E01,
        }
    }

    /// Different operations have different enumerants.
    pub proof fn lemma_gl_value_injective(a: StencilOp, b: StencilOp)
        ensures
            a.gl_value() == b.gl_value() ==> a == b,
    {
    }
}

impl StencilFunc {
    /// The comparison's OpenGL enumerant.
    pub open spec fn gl_value(self) -> u32 {
        match self {
            StencilFunc::Never => 0x0200,
            StencilFunc::Less => 0x0201,
            StencilFunc::LessEqual => 0x0203,
            StencilFunc::Equal => 0x0202,
            StencilFunc::NotEqual => 0x0205,
            StencilFunc::GreaterEqual => 0x0206,
            StencilFunc::Greater => 0x0204,
            StencilFunc::Always => 0x0207,
        }
    }

    /// The comparison's OpenGL enumerant.
    pub fn to_gl(&self) -> (v: u32)
        ensures
            v == self.gl_value(),
    {
        match *self {
            StencilFunc::Never => 0x0200,
            StencilFunc::Less => 0x0201,
            StencilFunc::LessEqual => 0x0203,
            StencilFunc::Equal => 0x0202,
            StencilFunc::NotEqual => 0x0205,
            StencilFunc::GreaterEqual => 0x0206,
            StencilFunc::Greater => 0x0204,
            StencilFunc::Always => 0x0207,
        }
    }

    /// Different comparisons have different enumerants.
    pub proof fn lemma_gl_value_injective(a: StencilFunc, b: StencilFunc)
        ensures
            a.gl_value() == b.gl_value() ==> a == b,
    {
    }
}

/// The drawing surface's size in pixels.
#[derive(PartialEq, Eq, Structural, Copy, Clone, Debug)]
pub struct Viewport {
    pub size: Vec2i,
}

impl Viewport {
    /// A viewport of no extent.
    pub fn new() -> (v: Viewport)
        ensures
            v.size == (Vec2i { x: 0, y: 0 }),
    {
        Viewport { size: Vec2i::zero() }
    }
}

} // verus!
