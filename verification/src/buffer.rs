//! The pixel surface: a fixed-size row-major grid of 24-bit colours.
//!
//! Writes outside the grid are silently dropped; geometry routinely
//! projects slightly outside the canvas and that is not an error.

use vstd::prelude::*;

verus! {

/// Largest accepted side length of a buffer; keeps every index
/// computation comfortably inside `usize` on any platform.
pub const MAX_DIM: usize = 32768;

pub struct PixelBuffer {
    width: usize,
    height: usize,
    data: Vec<u32>,
}

impl View for PixelBuffer {
    type V = Seq<u32>;

    closed spec fn view(&self) -> Seq<u32> {
        self.data@
    }
}

impl PixelBuffer {
    pub closed spec fn spec_width(&self) -> int {
        self.width as int
    }

    pub closed spec fn spec_height(&self) -> int {
        self.height as int
    }

    /// The buffer is a full row-major grid of its stated dimensions.
    pub closed spec fn wf(&self) -> bool {
        &&& self.width <= MAX_DIM
        &&& self.height <= MAX_DIM
        &&& self.data@.len() == self.width * self.height
    }

    /// Row-major cell index of an in-range coordinate.
    pub open spec fn spec_index_of(&self, x: int, y: int) -> int {
        y * self.spec_width() + x
    }

    /// Whether a coordinate lands on the grid.
    pub open spec fn in_bounds(&self, x: int, y: int) -> bool {
        0 <= x < self.spec_width() && 0 <= y < self.spec_height()
    }

    pub fn new(width: usize, height: usize) -> (buf: PixelBuffer)
        requires
            width <= MAX_DIM,
            height <= MAX_DIM,
        ensures
            buf.wf(),
            buf.spec_width() == width,
            buf.spec_height() == height,
            buf@ == Seq::<u32>::new((width * height) as nat, |i: int| 0u32),
    {
        proof {
            assert(width * height <= 0x40000000) by (nonlinear_arith)
                requires
                    width <= MAX_DIM,
                    height <= MAX_DIM,
            ;
        }
        let n = width * height;
        let mut data: Vec<u32> = Vec::new();
        let mut i: usize = 0;
        while i < n
            invariant
                i <= n,
                data@ =~= Seq::<u32>::new(i as nat, |j: int| 0u32),
            decreases n - i,
        {
            data.push(0u32);
            i = i + 1;
        }
        proof {
            assert(data@ =~= Seq::<u32>::new(n as nat, |j: int| 0u32));
        }
        PixelBuffer { width, height, data }
    }

    pub fn width(&self) -> (w: usize)
        ensures
            w == self.spec_width(),
    {
        self.width
    }

    pub fn height(&self) -> (h: usize)
        ensures
            h == self.spec_height(),
    {
        self.height
    }

    /// What one write does to the grid's contents: the cell changes when
    /// the coordinate is on the grid, and nothing happens otherwise.
    pub open spec fn spec_write(
        contents: Seq<u32>,
        w: int,
        h: int,
        x: int,
        y: int,
        colour: u32,
    ) -> Seq<u32> {
        if 0 <= x < w && 0 <= y < h {
            contents.update(y * w + x, colour)
        } else {
            contents
        }
    }

    /// Write one cell; an out-of-range coordinate is silently ignored.
    pub fn set_pixel(&mut self, x: i64, y: i64, colour: u32)
        requires
            old(self).wf(),
        ensures
            final(self).wf(),
            final(self).spec_width() == old(self).spec_width(),
            final(self).spec_height() == old(self).spec_height(),
            final(self)@ == PixelBuffer::spec_write(
                old(self)@,
                old(self).spec_width(),
                old(self).spec_height(),
                x as int,
                y as int,
                colour,
            ),
    {
        if 0 <= x && x < self.width as i64 && 0 <= y && y < self.height as i64 {
            let xi = x as usize;
            let yi = y as usize;
            proof {
                assert(yi * self.width + xi < self.width * self.height
                    && self.width * self.height <= 0x40000000) by (nonlinear_arith)
                    requires
                        xi < self.width,
                        yi < self.height,
                        self.width <= MAX_DIM,
                        self.height <= MAX_DIM,
                ;
            }
            let idx = yi * self.width + xi;
            self.data.set(idx, colour);
        }
    }

    /// Read one cell.
    pub fn get_pixel(&self, x: usize, y: usize) -> (colour: u32)
        requires
            self.wf(),
            self.in_bounds(x as int, y as int),
        ensures
            colour == self@[self.spec_index_of(x as int, y as int)],
    {
        proof {
            assert(y * self.width + x < self.width * self.height
                && self.width * self.height <= 0x40000000) by (nonlinear_arith)
                requires
                    x < self.width,
                    y < self.height,
                    self.width <= MAX_DIM,
                    self.height <= MAX_DIM,
            ;
        }
        self.data[y * self.width + x]
    }

    /// Fill every cell with one colour.
    pub fn clear(&mut self, colour: u32)
        requires
            old(self).wf(),
        ensures
            final(self).wf(),
            final(self).spec_width() == old(self).spec_width(),
            final(self).spec_height() == old(self).spec_height(),
            final(self)@ == Seq::<u32>::new(old(self)@.len(), |i: int| colour),
    {
        let n = self.data.len();
        let mut i: usize = 0;
        while i < n
            invariant
                i <= n,
                n == self.data@.len(),
                self.width == old(self).width,
                self.height == old(self).height,
                forall|j: int| 0 <= j < i ==> self.data@[j] == colour,
                forall|j: int| i <= j < n ==> self.data@[j] == old(self).data@[j],
            decreases n - i,
        {
            self.data.set(i, colour);
            i = i + 1;
        }
        proof {
            assert(self.data@ =~= Seq::<u32>::new(old(self)@.len(), |i: int| colour));
        }
    }

    /// A well-formed buffer's contents length is its width times height.
    pub proof fn lemma_wf_len(&self)
        requires
            self.wf(),
        ensures
            self@.len() == self.spec_width() * self.spec_height(),
            0 <= self.spec_width() <= MAX_DIM,
            0 <= self.spec_height() <= MAX_DIM,
    {
    }

    /// The raw row-major contents, for handing a frame to a display sink.
    pub fn contents(&self) -> (data: &Vec<u32>)
        ensures
            data@ == self@,
    {
        &self.data
    }
}

} // verus!
