//! The RGBA pixel buffer that frames are rendered into.
use vstd::prelude::*;

use vstd::arithmetic::div_mod::lemma_fundamental_div_mod_converse;

use crate::geometry::{pixel, pixel_color};
use crate::settings::{MissColor, RenderSettings};

verus! {

/// `len` bytes of value `255`: opaque white pixels.
pub open spec fn white_bytes(len: nat) -> Seq<u8> {
    Seq::new(len, |_i: int| 255u8)
}

/// The bytes of a `old_width` x `old_height` buffer holding `data` once it is
/// resized to `width` x `height`: unchanged when the size is the same, and
/// otherwise opaque white throughout, keeping no old pixel.
pub open spec fn resized_bytes(
    data: Seq<u8>,
    old_width: nat,
    old_height: nat,
    width: nat,
    height: nat,
) -> Seq<u8> {
    if old_width == width && old_height == height {
        data
    } else {
        white_bytes(4 * width * height)
    }
}

/// Byte offset of pixel `(x, y)` in a row-major buffer `width` pixels wide.
pub open spec fn pixel_offset(x: int, y: int, width: int) -> int {
    4 * (y * width + x)
}

/// A fully rendered `width` x `height` frame: row-major RGBA bytes, pixel
/// `p` holding `pixel_color` of column `p % width` and row `p / width`, with
/// misses coloured as `miss` says.
pub open spec fn frame(width: nat, height: nat, miss: MissColor) -> Seq<u8> {
    Seq::new(
        4 * width * height,
        |i: int|
            pixel_color(
                (i / 4) % width as int,
                (i / 4) / width as int,
                width as int,
                height as int,
                miss,
            )[i % 4],
    )
}

/// Within `frame(width, height)`, the four bytes at `pixel_offset(x, y, width)`
/// are the colour of pixel `(x, y)`.
pub proof fn lemma_frame_pixel(width: nat, height: nat, miss: MissColor, x: int, y: int, k: int)
    requires
        0 <= x < width,
        0 <= y < height,
        0 <= k < 4,
    ensures
        0 <= pixel_offset(x, y, width as int) + k < 4 * width * height,
        frame(width, height, miss)[pixel_offset(x, y, width as int) + k] == pixel_color(
            x,
            y,
            width as int,
            height as int,
            miss,
        )[k],
{
    let p = y * width + x;
    assert(0 <= p < width * height && 4 * width * height == 4 * (width * height))
        by (nonlinear_arith)
        requires
            0 <= x < width,
            0 <= y < height,
            p == y * width + x,
    ;
    lemma_fundamental_div_mod_converse(4 * p + k, 4, p, k);
    lemma_fundamental_div_mod_converse(p, width as int, y, x);
}

/// Resizing twice to the same size gives the bytes of resizing once: the
/// second resize finds the size already matched and changes nothing.
pub proof fn lemma_resize_idempotent(
    data: Seq<u8>,
    old_width: nat,
    old_height: nat,
    width: nat,
    height: nat,
)
    ensures
        resized_bytes(resized_bytes(data, old_width, old_height, width, height), width, height, width, height)
            == resized_bytes(data, old_width, old_height, width, height),
{
}

/// After a change of size every byte is `255`: each pixel, whether inside
/// the old region or new, reads opaque white until the next render.
pub proof fn lemma_new_size_is_white(
    data: Seq<u8>,
    old_width: nat,
    old_height: nat,
    width: nat,
    height: nat,
)
    requires
        old_width != width || old_height != height,
    ensures
        resized_bytes(data, old_width, old_height, width, height).len() == 4 * width * height,
        forall|i: int|
            0 <= i < 4 * width * height ==> #[trigger] resized_bytes(
                data,
                old_width,
                old_height,
                width,
                height,
            )[i] == 255u8,
{
}

/// Every pixel of a rendered frame is fully opaque: each fourth byte, the
/// alpha channel, is `255`.
pub proof fn lemma_frame_opaque(width: nat, height: nat, miss: MissColor)
    ensures
        forall|i: int|
            0 <= i < 4 * width * height && i % 4 == 3 ==> #[trigger] frame(width, height, miss)[i]
                == 255u8,
{
}

/// A surface with no pixels: resizing to it leaves no bytes, and its frame
/// has no bytes to write.
pub proof fn lemma_zero_size(
    data: Seq<u8>,
    old_width: nat,
    old_height: nat,
    width: nat,
    height: nat,
    miss: MissColor,
)
    requires
        data.len() == 4 * old_width * old_height,
        width == 0 || height == 0,
    ensures
        resized_bytes(data, old_width, old_height, width, height) == Seq::<u8>::empty(),
        frame(width, height, miss) == Seq::<u8>::empty(),
{
    assert(4 * width * height == 0) by (nonlinear_arith)
        requires
            width == 0 || height == 0,
    ;
    assert(resized_bytes(data, old_width, old_height, width, height) =~= Seq::<u8>::empty());
    assert(frame(width, height, miss) =~= Seq::<u8>::empty());
}

/// A row-major RGBA8 pixel buffer of `width` x `height` pixels.
pub struct RenderTexture {
    width: u32,
    height: u32,
    data: Vec<u8>,
}

impl View for RenderTexture {
    type V = Seq<u8>;

    closed spec fn view(&self) -> Seq<u8> {
        self.data@
    }
}

impl RenderTexture {
    /// Width in pixels.
    pub closed spec fn spec_width(&self) -> nat {
        self.width as nat
    }

    /// Height in pixels.
    pub closed spec fn spec_height(&self) -> nat {
        self.height as nat
    }

    /// The buffer holds exactly four bytes per pixel.
    pub open spec fn wf(&self) -> bool {
        self@.len() == 4 * self.spec_width() * self.spec_height()
    }

    /// A `width` x `height` buffer of opaque white pixels.
    pub fn new(width: u32, height: u32) -> (r: RenderTexture)
        requires
            4 * width * height <= usize::MAX,
        ensures
            r.wf(),
            r.spec_width() == width,
            r.spec_height() == height,
            r@ == white_bytes((4 * width * height) as nat),
    {
        let mut t = RenderTexture { width: 0, height: 0, data: Vec::new() };
        assert(t.wf());
        t.resize(width, height);
        t
    }

    /// Width in pixels.
    pub fn width(&self) -> (r: u32)
        ensures
            r == self.spec_width(),
    {
        self.width
    }

    /// Height in pixels.
    pub fn height(&self) -> (r: u32)
        ensures
            r == self.spec_height(),
    {
        self.height
    }

    /// The RGBA bytes, row by row.
    pub fn data(&self) -> (r: &[u8])
        ensures
            r@ == self@,
    {
        self.data.as_slice()
    }

    /// The RGBA bytes of pixel `(x, y)`.
    pub fn pixel_at(&self, x: u32, y: u32) -> (r: [u8; 4])
        requires
            self.wf(),
            x < self.spec_width(),
            y < self.spec_height(),
        ensures
            r@ == self@.subrange(
                pixel_offset(x as int, y as int, self.spec_width() as int),
                pixel_offset(x as int, y as int, self.spec_width() as int) + 4,
            ),
    {
        proof {
            let (w, h) = (self.spec_width(), self.spec_height());
            assert(0 <= y * w && 4 * (y * w + x) + 4 <= 4 * w * h) by (nonlinear_arith)
                requires
                    x < w,
                    y < h,
            ;
            assert(self.data@.len() == self.data.len());
        }
        let offset: usize = 4 * ((y as usize) * (self.width as usize) + (x as usize));
        let r = [
            self.data[offset],
            self.data[offset + 1],
            self.data[offset + 2],
            self.data[offset + 3],
        ];
        assert(r@ =~= self@.subrange(offset as int, offset + 4));
        r
    }

    /// Matches the buffer to a surface of `width` x `height` pixels.
    ///
    /// Nothing changes when the size is already that. Otherwise the buffer is
    /// refilled with `4 * width * height` bytes of `255`, so that every pixel
    /// reads as opaque white and no old pixel survives, and then the
    /// dimensions are updated.
    pub fn resize(&mut self, width: u32, height: u32)
        requires
            old(self).wf(),
            4 * width * height <= usize::MAX,
        ensures
            final(self).wf(),
            final(self).spec_width() == width,
            final(self).spec_height() == height,
            final(self)@ == resized_bytes(
                old(self)@,
                old(self).spec_width(),
                old(self).spec_height(),
                width as nat,
                height as nat,
            ),
            old(self).spec_width() == width && old(self).spec_height() == height ==> final(self)@
                == old(self)@,
            old(self).spec_width() != width || old(self).spec_height() != height ==> final(self)@
                == white_bytes((4 * width * height) as nat),
    {
        if self.width != width || self.height != height {
            assert(width * height <= 4 * width * height && 4 * width * height == 4 * (width
                * height)) by (nonlinear_arith);
            let pixels: usize = (width as usize) * (height as usize);
            let len: usize = 4 * pixels;
            self.data.clear();
            self.data.resize(len, 255u8);
            self.width = width;
            self.height = height;
            assert(self.data@ =~= white_bytes(len as nat));
        }
    }

    /// Renders a frame: every pixel, row by row, gets the colour of the ray
    /// cast through it.
    pub fn render(&mut self, settings: &RenderSettings)
        requires
            old(self).wf(),
        ensures
            final(self).wf(),
            final(self).spec_width() == old(self).spec_width(),
            final(self).spec_height() == old(self).spec_height(),
            final(self)@ == frame(old(self).spec_width(), old(self).spec_height(), settings.miss_color),
    {
        let width = self.width;
        let height = self.height;
        let ghost w = width as nat;
        let ghost h = height as nat;
        let miss = settings.miss_color;
        let mut offset: usize = 0;
        let mut y: u32 = 0;
        while y < height
            invariant
                self.width == width,
                self.height == height,
                w == width,
                h == height,
                self.data@.len() == 4 * w * h,
                y <= height,
                offset == 4 * (y * width),
                forall|j: int| 0 <= j < offset ==> self.data@[j] == #[trigger] frame(w, h, miss)[j],
            decreases height - y,
        {
            let mut x: u32 = 0;
            while x < width
                invariant
                    self.width == width,
                    self.height == height,
                    w == width,
                    h == height,
                    self.data@.len() == 4 * w * h,
                    y < height,
                    x <= width,
                    offset == 4 * (y * width + x),
                    forall|j: int| 0 <= j < offset ==> self.data@[j] == #[trigger] frame(w, h, miss)[j],
                decreases width - x,
            {
                let color = pixel(x, y, width, height, miss);
                proof {
                    lemma_frame_pixel(w, h, miss, x as int, y as int, 0);
                    lemma_frame_pixel(w, h, miss, x as int, y as int, 1);
                    lemma_frame_pixel(w, h, miss, x as int, y as int, 2);
                    lemma_frame_pixel(w, h, miss, x as int, y as int, 3);
                }
                assert(offset + 4 <= self.data.len());
                self.data.set(offset, color[0]);
                self.data.set(offset + 1, color[1]);
                self.data.set(offset + 2, color[2]);
                self.data.set(offset + 3, color[3]);
                offset = offset + 4;
                x = x + 1;
            }
            assert((y + 1) * width == y * width + width) by (nonlinear_arith);
            y = y + 1;
        }
        assert(4 * w * h == 4 * (h * w)) by (nonlinear_arith);
        assert(self.data@ =~= frame(w, h, miss));
    }
}

} // verus!
