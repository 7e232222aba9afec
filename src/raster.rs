use vstd::prelude::*;

verus! {

/// A raster of RGBA pixels with eight bits per channel, stored row by row from
/// the top-left corner, four bytes per pixel.
pub struct RasterImage {
    pub width: u32,
    pub height: u32,
    pub data: Vec<u8>,
}

/// Index in the raw buffer of channel `c` of the pixel at `(x, y)`.
pub open spec fn channel_index(width: int, x: int, y: int, c: int) -> int {
    (y * width + x) * 4 + c
}

impl RasterImage {
    /// The buffer holds exactly four bytes for each pixel.
    pub open spec fn wf(&self) -> bool {
        self.data@.len() == self.width as int * self.height as int * 4
    }

    /// Channel `c` of the pixel at `(x, y)`.
    pub open spec fn channel(&self, x: int, y: int, c: int) -> u8 {
        self.data@[channel_index(self.width as int, x, y, c)]
    }

    /// The RGBA value of the pixel at `(x, y)`.
    pub fn get_pixel(&self, x: u32, y: u32) -> (r: [u8; 4])
        requires
            self.wf(),
            x < self.width,
            y < self.height,
        ensures
            forall|c: int| 0 <= c < 4 ==> #[trigger] r@[c] == self.channel(x as int, y as int, c),
    {
        let w = self.width as usize;
        let len = self.data.len();
        proof {
            let wi = self.width as int;
            let hi = self.height as int;
            assert(0 <= y * wi && y * wi + x <= (y * wi + x) * 4 && (y * wi + x) * 4 + 3 < wi * hi
                * 4) by (nonlinear_arith)
                requires x < wi, y < hi, 0 <= x, 0 <= y;
        }
        let base: usize = (y as usize * w + x as usize) * 4;
        let r = [self.data[base], self.data[base + 1], self.data[base + 2], self.data[base + 3]];
        r
    }
}

} // verus!
