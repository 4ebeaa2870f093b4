//! A small software rasterizer.
//!
//! The crate draws into plain pixel grids: Bresenham line stepping
//! ([`line::LineIter`]), half-space triangle filling with the top-left
//! tie-break rule ([`triangle::FillTriangleIter`]), a depth buffer with the
//! greater-wins test ([`depth::DepthBuffer`]), and an RGBA frame the filled
//! pixels are written to ([`frame::Frame`]).
//!
//! Plane coordinates are exact fixed-point integers, ten subpixel units per
//! pixel, so edge functions and the tie-break rule are decided exactly, with
//! no rounding. Contracts state, pixel by pixel, which positions a rasterizer
//! yields and what a drawing call changes.

pub mod types;

pub mod line;

pub mod triangle;

pub mod depth;

pub mod frame;

