use vstd::prelude::*;

verus! {

/// Mathematical picture of an RGBA image: its dimensions and its bytes in
/// row-major order, four channels (R, G, B, A) per pixel.
pub struct ImageView {
    pub width: nat,
    pub height: nat,
    pub data: Seq<u8>,
}

impl ImageView {
    /// The byte sequence holds exactly one RGBA quadruple per pixel.
    pub open spec fn wf(self) -> bool {
        &&& self.data.len() == self.width * self.height * 4
        &&& self.width <= u32::MAX
        &&& self.height <= u32::MAX
    }

    /// Position of channel `c` of pixel `(x, y)` in `data`.
    pub open spec fn offset(self, x: int, y: int, c: int) -> int {
        (y * self.width + x) * 4 + c
    }

    /// Channel `c` of pixel `(x, y)`.
    pub open spec fn channel(self, x: int, y: int, c: int) -> u8 {
        self.data[self.offset(x, y, c)]
    }

    pub open spec fn in_bounds(self, x: int, y: int) -> bool {
        0 <= x < self.width && 0 <= y < self.height
    }

    /// The image with pixel `(x, y)` replaced by `p`.
    pub open spec fn with_pixel(self, x: int, y: int, p: Seq<u8>) -> ImageView {
        ImageView {
            width: self.width,
            height: self.height,
            data: self.data
                .update(self.offset(x, y, 0), p[0])
                .update(self.offset(x, y, 1), p[1])
                .update(self.offset(x, y, 2), p[2])
                .update(self.offset(x, y, 3), p[3]),
        }
    }
}

/// Offsets of the pixels of a well-formed image lie inside its data.
pub proof fn lemma_offset_in_bounds(img: ImageView, x: int, y: int, c: int)
    requires
        img.wf(),
        img.in_bounds(x, y),
        0 <= c < 4,
    ensures
        0 <= img.offset(x, y, c) < img.data.len(),
        img.offset(x, y, c) == y * img.width * 4 + x * 4 + c,
{
    let w = img.width as int;
    let h = img.height as int;
    assert(y * w + x < w * h) by (nonlinear_arith)
        requires 0 <= x < w, 0 <= y < h;
    assert(0 <= y * w) by (nonlinear_arith)
        requires 0 <= y, 0 <= w;
    assert((y * w + x) * 4 + c == y * w * 4 + x * 4 + c) by (nonlinear_arith);
}

/// An RGBA image with 8 bits per channel, stored row-major.
pub struct RgbaBuffer {
    width: u32,
    height: u32,
    data: Vec<u8>,
}

impl View for RgbaBuffer {
    type V = ImageView;

    closed spec fn view(&self) -> ImageView {
        ImageView { width: self.width as nat, height: self.height as nat, data: self.data@ }
    }
}

impl RgbaBuffer {
    #[verifier::type_invariant]
    spec fn inv(self) -> bool {
        self.data.len() == self.width as int * self.height as int * 4
    }

    /// An image of the given size with every pixel equal to `pixel`.
    pub fn from_pixel(width: u32, height: u32, pixel: [u8; 4]) -> (img: RgbaBuffer)
        requires
            width as int * height as int * 4 <= usize::MAX,
        ensures
            img@.wf(),
            img@.width == width,
            img@.height == height,
            forall|x: int, y: int, c: int|
                img@.in_bounds(x, y) && 0 <= c < 4 ==> #[trigger] img@.channel(x, y, c) == pixel[c],
    {
        let n: usize = width as usize * height as usize;
        assert(n * 4 <= usize::MAX) by (nonlinear_arith)
            requires n == width as int * height as int, width as int * height as int * 4 <= usize::MAX;
        let mut data: Vec<u8> = Vec::with_capacity(n * 4);
        let mut k: usize = 0;
        while k < n
            invariant
                k <= n,
                n * 4 <= usize::MAX,
                data@.len() == k * 4,
                forall|i: int| 0 <= i < data@.len() ==> #[trigger] data@[i] == pixel[i % 4],
            decreases n - k,
        {
            data.push(pixel[0]);
            data.push(pixel[1]);
            data.push(pixel[2]);
            data.push(pixel[3]);
            k = k + 1;
        }
        let img = RgbaBuffer { width, height, data };
        proof {
            assert forall|x: int, y: int, c: int|
                img@.in_bounds(x, y) && 0 <= c < 4 implies #[trigger] img@.channel(x, y, c) == pixel[c] by {
                lemma_offset_in_bounds(img@, x, y, c);
                let o = img@.offset(x, y, c);
                assert(o % 4 == c) by (nonlinear_arith)
                    requires o == (y * width + x) * 4 + c, 0 <= c < 4, 0 <= x, 0 <= y;
            }
        }
        img
    }

    /// Wraps raw row-major RGBA bytes; `None` when their number is not
    /// `width * height * 4`.
    pub fn from_raw(width: u32, height: u32, data: Vec<u8>) -> (img: Option<RgbaBuffer>)
        ensures
            img is Some <==> data@.len() == width as int * height as int * 4,
            img matches Some(i) ==> i@ == (ImageView { width: width as nat, height: height as nat, data: data@ }),
    {
        assert(width as int * height as int <= 0xffff_ffff_ffff_ffff_ffff_ffff_ffff_ffffu128) by (nonlinear_arith)
            requires width <= u32::MAX, height <= u32::MAX;
        let wh: u128 = width as u128 * height as u128;
        assert(wh <= 0xffff_ffff_ffff_ffff_ffff_ffff_ffff_ffffu128 / 4) by (nonlinear_arith)
            requires wh == width as int * height as int, width <= u32::MAX, height <= u32::MAX;
        let expected: u128 = wh * 4;
        if data.len() as u128 == expected {
            Some(RgbaBuffer { width, height, data })
        } else {
            None
        }
    }

    pub fn width(&self) -> (w: u32)
        ensures
            w == self@.width,
            self@.wf(),
    {
        proof { use_type_invariant(self); }
        self.width
    }

    pub fn height(&self) -> (h: u32)
        ensures
            h == self@.height,
            self@.wf(),
    {
        proof { use_type_invariant(self); }
        self.height
    }

    /// The raw bytes, row-major RGBA.
    pub fn as_raw(&self) -> (d: &Vec<u8>)
        ensures
            d@ == self@.data,
            self@.wf(),
    {
        proof { use_type_invariant(self); }
        &self.data
    }

    /// Consumes the image and returns its bytes.
    pub fn into_raw(self) -> (d: Vec<u8>)
        ensures
            d@ == self@.data,
    {
        self.data
    }

    /// A second image with the same size and pixels.
    pub fn duplicate(&self) -> (img: RgbaBuffer)
        ensures
            img@ == self@,
    {
        proof { use_type_invariant(self); }
        let mut data: Vec<u8> = Vec::with_capacity(self.data.len());
        let mut i: usize = 0;
        while i < self.data.len()
            invariant
                i <= self.data@.len(),
                data@ == self.data@.take(i as int),
            decreases self.data@.len() - i,
        {
            data.push(self.data[i]);
            i = i + 1;
            assert(data@ =~= self.data@.take(i as int));
        }
        assert(data@ =~= self.data@);
        RgbaBuffer { width: self.width, height: self.height, data }
    }

    /// The four channels of pixel `(x, y)`.
    pub fn get_pixel(&self, x: u32, y: u32) -> (p: [u8; 4])
        requires
            self@.in_bounds(x as int, y as int),
        ensures
            forall|c: int| 0 <= c < 4 ==> #[trigger] p[c] == self@.channel(x as int, y as int, c),
    {
        proof {
            use_type_invariant(self);
            lemma_offset_in_bounds(self@, x as int, y as int, 0);
            lemma_offset_in_bounds(self@, x as int, y as int, 3);
        }
        let o: usize = (y as usize * self.width as usize + x as usize) * 4;
        [self.data[o], self.data[o + 1], self.data[o + 2], self.data[o + 3]]
    }

    /// Replaces pixel `(x, y)` by `pixel`.
    pub fn put_pixel(&mut self, x: u32, y: u32, pixel: [u8; 4])
        requires
            old(self)@.in_bounds(x as int, y as int),
        ensures
            final(self)@ == old(self)@.with_pixel(x as int, y as int, pixel@),
    {
        proof {
            use_type_invariant(&*self);
            lemma_offset_in_bounds(self@, x as int, y as int, 0);
            lemma_offset_in_bounds(self@, x as int, y as int, 3);
        }
        let o: usize = (y as usize * self.width as usize + x as usize) * 4;
        let mut taken = RgbaBuffer { width: 0, height: 0, data: Vec::new() };
        std::mem::swap(self, &mut taken);
        let RgbaBuffer { width, height, mut data } = taken;
        data.set(o, pixel[0]);
        data.set(o + 1, pixel[1]);
        data.set(o + 2, pixel[2]);
        data.set(o + 3, pixel[3]);
        *self = RgbaBuffer { width, height, data };
    }
}

} // verus!
