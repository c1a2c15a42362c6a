//! Integer core of a progressive path tracer: the interlaced split of an
//! image between workers, the per-worker partial framebuffers and their
//! merge, the progressive accumulation buffer, the nearest-hit scan over a
//! scene's primitives, and the bookkeeping of a light path (bounce budget,
//! reflect/refract choice, extra samples).
//!
//! Colour arithmetic is not done here: the buffers are generic over the
//! pixel value, every operation that combines pixel values takes the
//! combining function as a closure, and the scan compares hits through a
//! closure as well.
pub mod accumulate;
pub mod interlace;
pub mod nearest;
pub mod partial;
pub mod path;
