//! Pixel-level transforms for inspecting how raw video frames carry their
//! colour planes: a wrap-around offset of every sample of each plane, and an
//! expansion that lays the colour components of a frame side by side.

pub mod frame;
pub mod plane_expand;
pub mod yuv_offset;
