use vstd::prelude::*;

verus! {

/// An RGB raster stored row-major, three bytes (R, G, B) per pixel.
pub struct Raster {
    pub width: u32,
    pub height: u32,
    pub data: Vec<u8>,
}

/// The interpolation used when a raster is resized.
pub enum ResizeFilter {
    /// Nearest neighbour: introduces no new colors.
    Nearest,
    /// Linear (triangle) interpolation.
    Triangle,
}

impl Raster {
    /// The buffer holds exactly three bytes per pixel.
    pub open spec fn wf(&self) -> bool {
        self.data@.len() == 3 * (self.width as int * self.height as int)
    }

    /// Number of pixels of a well-formed raster.
    pub open spec fn pixel_count(&self) -> int {
        self.data@.len() as int / 3
    }

    /// Builds a raster from its dimensions and its bytes; `None` when the
    /// buffer does not hold exactly three bytes per pixel.
    pub fn new(width: u32, height: u32, data: Vec<u8>) -> (r: Option<Raster>)
        ensures
            r.is_some() == (data@.len() == 3 * (width as int * height as int)),
            r matches Some(img) ==> img.width == width && img.height == height && img.data@
                == data@ && img.wf(),
    {
        let w: u128 = width as u128;
        let h: u128 = height as u128;
        assert(w * h <= 0xffff_ffff_ffff_ffff_ffff_ffff_ffff_ffffu128) by (nonlinear_arith)
            requires
                w <= 0xffff_ffff,
                h <= 0xffff_ffff,
        ;
        let n: u128 = w * h;
        if data.len() as u128 % 3 == 0 && data.len() as u128 / 3 == n {
            Some(Raster { width, height, data })
        } else {
            None
        }
    }
}

/// Dimensions from which and to which `image`'s resampler can resize without
/// overflowing its buffer lengths.
pub open spec fn resizable(from: &Raster, width: u32, height: u32) -> bool {
    &&& from.wf()
    &&& 3 * (width as int * height as int) <= usize::MAX
    &&& 4 * (from.width as int * height as int) <= usize::MAX
}

/// The bytes of an RGB raster of `width` by `height` pixels resampled to
/// `new_width` by `new_height`, with the nearest-neighbour filter when
/// `nearest` holds and the triangle filter otherwise.
pub uninterp spec fn resized_rgb(
    data: Seq<u8>,
    width: u32,
    height: u32,
    new_width: u32,
    new_height: u32,
    nearest: bool,
) -> Seq<u8>;

/// Relies on `image::imageops::resize`: it returns an RGB buffer of exactly
/// the requested width and height, whose bytes depend on the input bytes, the
/// dimensions and the filter alone.
#[verifier::external_body]
fn resize_rgb(img: &Raster, width: u32, height: u32, filter: ResizeFilter) -> (r: Raster)
    requires
        resizable(img, width, height),
    ensures
        r.width == width,
        r.height == height,
        r.wf(),
        r.data@ == resized_rgb(
            img.data@,
            img.width,
            img.height,
            width,
            height,
            filter is Nearest,
        ),
{
    let buf = image::RgbImage::from_raw(img.width, img.height, img.data.clone()).unwrap();
    let kind = match filter {
        ResizeFilter::Nearest => image::imageops::FilterType::Nearest,
        ResizeFilter::Triangle => image::imageops::FilterType::Triangle,
    };
    let out = image::imageops::resize(&buf, width, height, kind);
    Raster { width, height, data: out.into_raw() }
}

/// Brings `target` to the dimensions of `source`: an unchanged copy when they
/// already agree, else a resampled raster (nearest neighbour in palette mode,
/// linear interpolation otherwise).
pub fn match_dimensions(source: &Raster, target: &Raster, palette: bool) -> (r: Raster)
    requires
        source.wf(),
        target.wf(),
        (source.width != target.width || source.height != target.height) ==> resizable(
            target,
            source.width,
            source.height,
        ),
    ensures
        r.wf(),
        r.width == source.width,
        r.height == source.height,
        r.data@.len() == source.data@.len(),
        (source.width == target.width && source.height == target.height) ==> r.data@
            == target.data@,
        (source.width != target.width || source.height != target.height) ==> r.data@
            == resized_rgb(
            target.data@,
            target.width,
            target.height,
            source.width,
            source.height,
            palette,
        ),
{
    if source.width == target.width && source.height == target.height {
        Raster { width: target.width, height: target.height, data: target.data.clone() }
    } else {
        let filter = if palette {
            ResizeFilter::Nearest
        } else {
            ResizeFilter::Triangle
        };
        resize_rgb(target, source.width, source.height, filter)
    }
}

} // verus!
