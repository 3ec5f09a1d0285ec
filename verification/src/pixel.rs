use vstd::prelude::*;

verus! {

/// A decoded, resized image: RGBA8 bytes plus their dimensions. Immutable once
/// produced; shared by value between the cache and consumers.
pub struct PixelBuffer {
    pub width: u32,
    pub height: u32,
    /// Bytes per row.
    pub stride: u64,
    pub pixels: Vec<u8>,
}

impl PixelBuffer {
    /// The pixel data is consistent with the dimensions: rows of `4 * width`
    /// bytes each, and enough bytes for all `height` rows.
    pub open spec fn wf(&self) -> bool {
        &&& self.pixels@.len() >= 4 * (self.width as int) * (self.height as int)
        &&& self.stride == 4 * (self.width as int)
    }
}

/// Two buffers carry the same picture: equal dimensions and equal bytes.
pub open spec fn same_buffer(a: PixelBuffer, b: PixelBuffer) -> bool {
    &&& a.width == b.width
    &&& a.height == b.height
    &&& a.stride == b.stride
    &&& a.pixels@ == b.pixels@
}

impl Clone for PixelBuffer {
    fn clone(&self) -> (res: Self)
        ensures
            res.width == self.width,
            res.height == self.height,
            res.stride == self.stride,
            res.pixels@ == self.pixels@,
    {
        let pixels = self.pixels.clone();
        proof {
            assert(pixels@ =~= self.pixels@);
        }
        PixelBuffer { width: self.width, height: self.height, stride: self.stride, pixels }
    }
}

} // verus!
