//! A per-frame depth buffer with the greater-wins convention.
//!
//! Depths are plain unsigned keys whose order is the nearness order: greater
//! means nearer. The buffer starts each frame at the minimum key, so the
//! first fragment at each pixel always passes, and a fragment passes later
//! only when it is strictly nearer than what is stored.

use vstd::prelude::*;

verus! {

/// The depth a test leaves stored at a pixel: the candidate when it is
/// strictly nearer (greater), else the value already stored.
pub open spec fn depth_after(stored: u32, candidate: u32) -> u32 {
    if candidate > stored {
        candidate
    } else {
        stored
    }
}

/// The depth stored after a whole sequence of candidates is tested in order.
pub open spec fn depth_after_all(stored: u32, candidates: Seq<u32>) -> u32
    decreases candidates.len(),
{
    if candidates.len() == 0 {
        stored
    } else {
        depth_after_all(depth_after(stored, candidates[0]), candidates.drop_first())
    }
}

/// Depth-test monotonicity: the stored depth never decreases, so once a
/// depth has been stored at a pixel, a fragment that is not nearer than it
/// fails the test forever, whatever other fragments are tested in between.
pub proof fn lemma_depth_test_monotonic(stored: u32, candidates: Seq<u32>, farther: u32)
    requires
        farther <= stored,
    ensures
        stored <= depth_after_all(stored, candidates),
        !(farther > depth_after_all(stored, candidates)),
    decreases candidates.len(),
{
    if candidates.len() > 0 {
        lemma_depth_test_monotonic(depth_after(stored, candidates[0]), candidates.drop_first(), farther);
    }
}

/// The buffer index of pixel (x, y): row-major.
pub open spec fn depth_index(width: int, x: int, y: int) -> int {
    y * width + x
}

/// A dense width x height grid of depth keys.
pub struct DepthBuffer {
    width: usize,
    height: usize,
    data: Vec<u32>,
}

impl DepthBuffer {
    pub closed spec fn width_spec(self) -> int {
        self.width as int
    }

    pub closed spec fn height_spec(self) -> int {
        self.height as int
    }

    /// The stored depths, row-major.
    pub closed spec fn depths(self) -> Seq<u32> {
        self.data@
    }

    pub closed spec fn wf(self) -> bool {
        &&& self.width <= 0x1000
        &&& self.height <= 0x1000
        &&& self.data@.len() == self.width * self.height
    }

    /// A fresh buffer with every depth at the minimum, so that the first
    /// test at each pixel passes.
    pub fn new(width: usize, height: usize) -> (b: DepthBuffer)
        requires
            width <= 0x1000,
            height <= 0x1000,
        ensures
            b.wf(),
            b.width_spec() == width,
            b.height_spec() == height,
            forall|i: int| 0 <= i < b.depths().len() ==> b.depths()[i] == 0,
    {
        proof {
            assert(width * height <= 0x100_0000) by (nonlinear_arith)
                requires
                    width <= 0x1000,
                    height <= 0x1000,
            ;
        }
        let n = width * height;
        let mut data: Vec<u32> = Vec::new();
        while data.len() < n
            invariant
                data@.len() <= n,
                n == width * height,
                forall|i: int| 0 <= i < data@.len() ==> data@[i] == 0,
            decreases n - data.len(),
        {
            data.push(0);
        }
        DepthBuffer { width, height, data }
    }

    /// Resets every depth to the minimum, ready for the next frame.
    pub fn clear(&mut self)
        requires
            old(self).wf(),
        ensures
            final(self).wf(),
            final(self).width_spec() == old(self).width_spec(),
            final(self).height_spec() == old(self).height_spec(),
            forall|i: int| 0 <= i < final(self).depths().len() ==> final(self).depths()[i] == 0,
    {
        let mut i: usize = 0;
        let n = self.data.len();
        while i < n
            invariant
                n == self.data@.len(),
                i <= n,
                self.width == old(self).width,
                self.height == old(self).height,
                self.data@.len() == old(self).data@.len(),
                forall|j: int| 0 <= j < i ==> self.data@[j] == 0,
            decreases n - i,
        {
            self.data[i] = 0;
            i = i + 1;
        }
    }

    /// The depth stored at pixel (x, y).
    pub fn depth_at(&self, x: usize, y: usize) -> (d: u32)
        requires
            self.wf(),
            x < self.width_spec(),
            y < self.height_spec(),
        ensures
            d == self.depths()[depth_index(self.width_spec(), x as int, y as int)],
    {
        proof {
            lemma_depth_index_in_range(self.width as int, self.height as int, x as int, y as int);
        }
        self.data[y * self.width + x]
    }

    /// The greater-wins depth test at pixel (x, y): stores the candidate and
    /// reports true exactly when it is strictly nearer than what is stored.
    pub fn test_and_set(&mut self, x: usize, y: usize, depth: u32) -> (passed: bool)
        requires
            old(self).wf(),
            x < old(self).width_spec(),
            y < old(self).height_spec(),
        ensures
            final(self).wf(),
            final(self).width_spec() == old(self).width_spec(),
            final(self).height_spec() == old(self).height_spec(),
            ({
                let idx = depth_index(old(self).width_spec(), x as int, y as int);
                &&& passed == (depth > old(self).depths()[idx])
                &&& passed ==> final(self).depths() == old(self).depths().update(idx, depth)
                &&& !passed ==> final(self).depths() == old(self).depths()
                &&& final(self).depths()[idx] == depth_after(old(self).depths()[idx], depth)
            }),
    {
        proof {
            lemma_depth_index_in_range(self.width as int, self.height as int, x as int, y as int);
        }
        let idx = y * self.width + x;
        let stored = self.data[idx];
        if depth > stored {
            self.data[idx] = depth;
            true
        } else {
            false
        }
    }
}

/// Row-major pixel indices stay within the buffer.
proof fn lemma_depth_index_in_range(width: int, height: int, x: int, y: int)
    by (nonlinear_arith)
    requires
        0 <= x < width <= 0x1000,
        0 <= y < height <= 0x1000,
    ensures
        0 <= y * width,
        depth_index(width, x, y) < width * height,
        width * height <= 0x100_0000,
{
}

} // verus!
