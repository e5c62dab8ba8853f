//! The framebuffer, as the Multiboot2 framebuffer tag describes it.

use vstd::prelude::*;

verus! {

/// Framebuffer info taken from the Graphics Output Protocol.
#[derive(Debug, Clone, Copy, PartialEq, Eq, Structural)]
pub struct FbInfo {
    pub addr: u64,
    pub pitch: u32,
    pub width: u32,
    pub height: u32,
    pub bpp: u8,
    pub fb_type: u8,
    pub red_pos: u8,
    pub red_size: u8,
    pub green_pos: u8,
    pub green_size: u8,
    pub blue_pos: u8,
    pub blue_size: u8,
}

/// How the firmware lays out a pixel, as far as the framebuffer tag cares.
#[derive(Debug, Clone, Copy, PartialEq, Eq, Structural)]
pub enum PixelLayout {
    /// Red in the lowest byte.
    Rgb,
    /// Blue in the lowest byte.
    Bgr,
    /// Anything else; described as RGB.
    Other,
}

/// The framebuffer a mode describes: 32-bit direct colour, red, green and
/// blue in the bytes the layout puts them, and a pitch of four bytes per
/// pixel of the stride (the product wraps at 2^32).
pub open spec fn spec_fb_info(addr: u64, width: usize, height: usize, stride: usize, layout: PixelLayout) -> FbInfo {
    let (red_pos, blue_pos): (u8, u8) = match layout {
        PixelLayout::Bgr => (16, 0),
        _ => (0, 16),
    };
    FbInfo {
        addr,
        pitch: (((stride as u32) as int * 4) % 0x1_0000_0000) as u32,
        width: width as u32,
        height: height as u32,
        bpp: 32,
        fb_type: 1,
        red_pos,
        red_size: 8,
        green_pos: 8,
        green_size: 8,
        blue_pos,
        blue_size: 8,
    }
}

/// Describe the framebuffer at `addr` in the current mode.
pub fn fb_info(addr: u64, width: usize, height: usize, stride: usize, layout: PixelLayout) -> (r: FbInfo)
    ensures
        r == spec_fb_info(addr, width, height, stride, layout),
{
    let (red_pos, blue_pos): (u8, u8) = match layout {
        PixelLayout::Bgr => (16, 0),
        _ => (0, 16),
    };
    let bpp: u8 = 32;
    let pitch = (stride as u32).wrapping_mul((bpp / 8) as u32);
    assert(pitch == (((stride as u32) as int * 4) % 0x1_0000_0000)) by (nonlinear_arith)
        requires pitch == vstd::wrapping::u32_specs::wrapping_mul(stride as u32, 4u32);
    FbInfo {
        addr,
        pitch,
        width: width as u32,
        height: height as u32,
        bpp,
        fb_type: 1,
        red_pos,
        red_size: 8,
        green_pos: 8,
        green_size: 8,
        blue_pos,
        blue_size: 8,
    }
}

} // verus!
