use vstd::prelude::*;
use crate::block_match::{
    diff_bidirectional, diff_height, diff_supported, diff_width, effective_block, expected_vectors, grid_cols, grid_rows,
    BlockMatchOptions, MotionVector, Region, SearchMode,
};
use crate::buffer::{ImageView, RgbaBuffer};
use crate::clustering::regions_of;
use crate::laws::law_identical_images_pass;
use crate::smoothing::smoothed;

verus! {

#[verifier::external_type_specification]
#[verifier::external_body]
pub struct ExImageError(image::ImageError);

/// The size and RGBA bytes that `image::load_from_memory` followed by
/// `to_rgba8` yields for an encoded image, or `None` when decoding fails.
pub uninterp spec fn decoded_rgba(bytes: Seq<u8>) -> Option<(u32, u32, Seq<u8>)>;

/// Decodes an encoded image (format guessed from its bytes) into RGBA with
/// `image::load_from_memory` and `DynamicImage::to_rgba8`. Trusted: the
/// outcome is the one named [`decoded_rgba`]; a decoded buffer holds four
/// bytes per pixel, as `to_rgba8` allocates it at the image's size; and a
/// decoded image has no zero side and at most 2^29 pixels. The size bound
/// comes from `ImageReader::decode`, which reserves width × height × bytes
/// per pixel (at least 1) against the default allocation limit of 512 MiB
/// before decoding; the two decoders built here (PNG and JPEG) refuse a
/// zero width or height.
#[verifier::external_body]
fn decode_rgba(bytes: &[u8]) -> (res: Result<(u32, u32, Vec<u8>), image::ImageError>)
    ensures
        match res {
            Ok((w, h, d)) => {
                &&& decoded_rgba(bytes@) == Some((w, h, d@))
                &&& d@.len() == w as int * h as int * 4
                &&& 1 <= w && 1 <= h
                &&& w as int * h as int <= 0x2000_0000
            },
            Err(_) => decoded_rgba(bytes@) is None,
        },
{
    match image::load_from_memory(bytes) {
        Ok(img) => {
            let rgba = img.to_rgba8();
            Ok((rgba.width(), rgba.height(), rgba.into_raw()))
        },
        Err(e) => Err(e),
    }
}

/// The message of a decoding error, as its `Display` writes it. Nothing is
/// stated of the text.
#[verifier::external_body]
fn image_error_message(e: &image::ImageError) -> String {
    format!("{}", e)
}

/// Options of [`diff_png`].
pub struct PngDiffOptions {
    pub block_size: u32,
    pub search_x: i32,
    pub search_y: i32,
    pub threshold: u32,
    /// `"full"` selects [`SearchMode::Full`]; anything else the
    /// hierarchical search.
    pub mode: String,
    pub merge_gap: u32,
    pub min_blocks: u32,
    /// Apply the 3×3 majority filter before clustering.
    pub smooth: bool,
}

impl PngDiffOptions {
    /// The defaults: 8-pixel blocks, ±16 × ±64 search, threshold 8, fast
    /// mode, merge gap 2, at least 2 blocks per region, no smoothing.
    pub fn new() -> (o: PngDiffOptions)
        ensures
            o.block_size == 8,
            o.search_x == 16,
            o.search_y == 64,
            o.threshold == 8,
            o.mode@ == "fast"@,
            o.merge_gap == 2,
            o.min_blocks == 2,
            !o.smooth,
    {
        PngDiffOptions {
            block_size: 8,
            search_x: 16,
            search_y: 64,
            threshold: 8,
            mode: "fast".to_owned(),
            merge_gap: 2,
            min_blocks: 2,
            smooth: false,
        }
    }
}

/// Overall outcome of a two-way comparison.
#[derive(Debug, Clone, Copy, PartialEq, Eq, Structural)]
pub enum Verdict {
    /// Nothing was removed or added.
    Pass,
    /// Some region changed.
    Review,
}

impl Verdict {
    pub fn as_str(&self) -> (s: &'static str)
        ensures
            *self == Verdict::Pass ==> s@ == "pass"@,
            *self == Verdict::Review ==> s@ == "review"@,
    {
        match self {
            Verdict::Pass => "pass",
            Verdict::Review => "review",
        }
    }
}

/// What [`diff_png`] reports.
pub struct PngDiffReport {
    pub width: u32,
    pub height: u32,
    pub block_size: u32,
    /// Regions of the reference with no match in the target.
    pub removed: Vec<Region>,
    /// Regions of the target with no match in the reference.
    pub added: Vec<Region>,
    pub verdict: Verdict,
}

#[derive(Debug)]
pub enum PngDiffError {
    /// The reference image could not be decoded; the decoder's message.
    DecodeReference(String),
    /// The target image could not be decoded; the decoder's message.
    DecodeTarget(String),
}

/// The block-matching options `diff_png` derives from its options.
pub open spec fn png_match_options(opts: PngDiffOptions) -> BlockMatchOptions {
    BlockMatchOptions {
        block_size: opts.block_size,
        search_x: opts.search_x,
        search_y: opts.search_y,
        step: 1,
        threshold: opts.threshold,
        mode: if opts.mode@ == "full"@ { SearchMode::Full } else { SearchMode::Hierarchical },
        compute_confidence: false,
    }
}

pub open spec fn decoded_view(d: (u32, u32, Seq<u8>)) -> ImageView {
    ImageView { width: d.0 as nat, height: d.1 as nat, data: d.2 }
}

/// The images can be compared in both directions and their grids clustered.
pub open spec fn png_supported(a: ImageView, b: ImageView, opts: PngDiffOptions) -> bool {
    let m = png_match_options(opts);
    &&& diff_supported(a, b, m)
    &&& diff_supported(b, a, m)
    &&& grid_cols(a, b, m) * grid_rows(a, b, m) <= i32::MAX
}

/// The vectors of one direction, smoothed when asked.
pub open spec fn png_vectors(a: ImageView, b: ImageView, opts: PngDiffOptions) -> Seq<MotionVector> {
    let m = png_match_options(opts);
    let vs = expected_vectors(a, b, m);
    if opts.smooth {
        smoothed(vs, grid_cols(a, b, m), grid_rows(a, b, m))
    } else {
        vs
    }
}

/// The regions of one direction.
pub open spec fn png_regions(a: ImageView, b: ImageView, opts: PngDiffOptions) -> Seq<Region> {
    let m = png_match_options(opts);
    regions_of(
        png_vectors(a, b, opts),
        grid_cols(a, b, m),
        grid_rows(a, b, m),
        effective_block(m),
        opts.merge_gap,
        opts.min_blocks,
    )
}

pub open spec fn png_report_ok(r: PngDiffReport, a: ImageView, b: ImageView, opts: PngDiffOptions) -> bool {
    &&& r.width == diff_width(a, b)
    &&& r.height == diff_height(a, b)
    &&& r.block_size == effective_block(png_match_options(opts))
    &&& r.removed@ == png_regions(a, b, opts)
    &&& r.added@ == png_regions(b, a, opts)
    &&& r.verdict == if r.removed@.len() == 0 && r.added@.len() == 0 { Verdict::Pass } else { Verdict::Review }
}

fn buffer_from(w: u32, h: u32, d: Vec<u8>) -> (img: RgbaBuffer)
    requires
        d@.len() == w as int * h as int * 4,
    ensures
        img@ == decoded_view((w, h, d@)),
{
    RgbaBuffer::from_raw(w, h, d).unwrap()
}

/// Decoded images (no zero side, at most 2^29 pixels) can always be
/// compared in both directions and their grids clustered.
proof fn lemma_decoded_supported(a: ImageView, b: ImageView, opts: PngDiffOptions)
    requires
        1 <= a.width,
        1 <= a.height,
        a.width * a.height <= 0x2000_0000,
        1 <= b.width,
        1 <= b.height,
        b.width * b.height <= 0x2000_0000,
        ({
            let bs = if opts.block_size == 0 { 1 } else { opts.block_size as int };
            &&& bs * bs * 3 <= u64::MAX
            &&& bs * bs * 3 * opts.threshold <= u64::MAX
        }),
    ensures
        png_supported(a, b, opts),
{
    let m = png_match_options(opts);
    let bs = effective_block(m);
    assert(a.width <= 0x2000_0000 && a.height <= 0x2000_0000) by (nonlinear_arith)
        requires 1 <= a.width, 1 <= a.height, a.width * a.height <= 0x2000_0000;
    assert(b.width <= 0x2000_0000 && b.height <= 0x2000_0000) by (nonlinear_arith)
        requires 1 <= b.width, 1 <= b.height, b.width * b.height <= 0x2000_0000;
    let w = diff_width(a, b);
    let h = diff_height(a, b);
    assert(w * h <= 0x2000_0000) by (nonlinear_arith)
        requires 0 <= w <= a.width, 0 <= h <= a.height, a.width * a.height <= 0x2000_0000;
    if bs <= w && bs <= h {
        assert(765 * bs * bs <= u64::MAX) by (nonlinear_arith)
            requires bs <= w, bs <= h, w * h <= 0x2000_0000, bs >= 1;
    }
    let cols = w / bs;
    let rows = h / bs;
    assert(0 <= cols <= w && 0 <= rows <= h) by (nonlinear_arith)
        requires cols == w / bs, rows == h / bs, bs >= 1, w >= 0, h >= 0;
    assert(cols * rows <= w * h) by (nonlinear_arith)
        requires 0 <= cols <= w, 0 <= rows <= h;
    assert(diff_width(b, a) == w && diff_height(b, a) == h);
    assert(cols == grid_cols(a, b, m) && rows == grid_rows(a, b, m));
}

/// Bidirectional block-matching diff of two encoded images (format
/// guessed from the bytes), smoothed when asked, clustered into removed
/// and added regions; the outcome passes exactly when neither direction
/// has a region.
pub fn diff_png(reference: &[u8], target: &[u8], opts: &PngDiffOptions) -> (res: Result<PngDiffReport, PngDiffError>)
    requires
        ({
            let b = if opts.block_size == 0 { 1 } else { opts.block_size as int };
            &&& b * b * 3 <= u64::MAX
            &&& b * b * 3 * opts.threshold <= u64::MAX
        }),
    ensures
        decoded_rgba(reference@) is None <==> res matches Err(PngDiffError::DecodeReference(_)),
        (decoded_rgba(reference@) is Some && decoded_rgba(target@) is None) <==> res matches Err(PngDiffError::DecodeTarget(_)),
        (decoded_rgba(reference@) is Some && decoded_rgba(target@) is Some) <==> res is Ok,
        res matches Ok(r) ==> decoded_rgba(reference@) is Some && decoded_rgba(target@) is Some && png_report_ok(
            r,
            decoded_view(decoded_rgba(reference@).unwrap()),
            decoded_view(decoded_rgba(target@).unwrap()),
            *opts,
        ),
        reference@ == target@ ==> (res matches Ok(r) ==> r.verdict == Verdict::Pass),
{
    let (aw, ah, ad) = match decode_rgba(reference) {
        Ok(t) => t,
        Err(e) => {
            return Err(PngDiffError::DecodeReference(image_error_message(&e)));
        },
    };
    let (bw, bh, bd) = match decode_rgba(target) {
        Ok(t) => t,
        Err(e) => {
            return Err(PngDiffError::DecodeTarget(image_error_message(&e)));
        },
    };
    let a = buffer_from(aw, ah, ad);
    let b = buffer_from(bw, bh, bd);
    let full = "full".to_owned();
    let mode = if opts.mode == full { SearchMode::Full } else { SearchMode::Hierarchical };
    let mopts = BlockMatchOptions {
        block_size: opts.block_size,
        search_x: opts.search_x,
        search_y: opts.search_y,
        step: 1,
        threshold: opts.threshold,
        mode,
        compute_confidence: false,
    };
    assert(mopts == png_match_options(*opts));
    proof {
        lemma_decoded_supported(a@, b@, *opts);
    }
    let mut bd = diff_bidirectional(&a, &b, &mopts);
    proof {
        assert(grid_cols(b@, a@, mopts) == grid_cols(a@, b@, mopts));
        assert(grid_rows(b@, a@, mopts) == grid_rows(a@, b@, mopts));
    }
    if opts.smooth {
        bd.forward.smooth_matched();
        bd.reverse.smooth_matched();
    }
    let ghost bs = effective_block(mopts);
    proof {
        let w = diff_width(a@, b@);
        let h = diff_height(a@, b@);
        assert(grid_cols(a@, b@, mopts) * bs <= w && grid_rows(a@, b@, mopts) * bs <= h) by (nonlinear_arith)
            requires grid_cols(a@, b@, mopts) == w / bs, grid_rows(a@, b@, mopts) == h / bs, bs >= 1, w >= 0, h >= 0;
    }
    proof {
        if reference@ == target@ {
            law_identical_images_pass(a@, *opts);
        }
    }
    let removed = bd.forward.unmatched_regions(opts.merge_gap, opts.min_blocks);
    let added = bd.reverse.unmatched_regions(opts.merge_gap, opts.min_blocks);
    let verdict = if removed.len() == 0 && added.len() == 0 { Verdict::Pass } else { Verdict::Review };
    Ok(PngDiffReport {
        width: bd.forward.width,
        height: bd.forward.height,
        block_size: bd.forward.block_size,
        removed,
        added,
        verdict,
    })
}

} // verus!
