use vstd::prelude::*;
use image::{DynamicImage, ImageError};
use crate::config::Config;
use crate::error::Error;
use crate::glyph::Symbols;
use crate::raster::{
    decode,
    height_of,
    image_height,
    image_width,
    luma_of,
    luma_samples,
    resize_lanczos,
    width_of,
};
use crate::render::{render, render_spec};
use crate::scale::{scale_dimension, scaled};

verus! {

/// Glyph cells are about twice as tall as wide, so each scaled row is
/// resampled to this many times its scaled width.
pub const HORIZONTAL_STRETCH: u32 = 2;

/// Width and height of `(width, height)` scaled down by the configured factor,
/// each rounded down.
pub open spec fn scaled_dims(width: nat, height: nat, config: Config) -> (nat, nat) {
    (
        scaled(width, config.scale_factor.num(), config.scale_factor.den()),
        scaled(height, config.scale_factor.num(), config.scale_factor.den()),
    )
}

/// The resampling buffers for a `width` by `height` target, taken from a
/// source `source_width` wide, are addressable.
pub open spec fn resample_fits(source_width: nat, width: nat, height: nat) -> bool {
    &&& width <= u32::MAX
    &&& source_width * height * 16 <= isize::MAX
    &&& width * height * 16 <= isize::MAX
}

/// What loading yields from the codec's outcome: the decoded image, or the
/// one `ImageLoad` error whatever the codec's reason.
pub fn load_outcome(decoded: Result<DynamicImage, ImageError>) -> (r: Result<DynamicImage, Error>)
    ensures
        decoded is Ok <==> r is Ok,
        decoded matches Ok(img) ==> r == Ok::<DynamicImage, Error>(img),
        r is Err ==> r == Err::<DynamicImage, Error>(Error::ImageLoad),
{
    match decoded {
        Ok(img) => Ok(img),
        Err(_) => Err(Error::ImageLoad),
    }
}

/// Decodes an encoded image. Any failure of the codec is reported as the one
/// `ImageLoad` error; a decoded image is passed on as it is.
pub fn decode_image(bytes: &[u8]) -> (r: Result<DynamicImage, Error>)
    ensures
        r matches Err(e) ==> e == Error::ImageLoad,
{
    load_outcome(decode(bytes))
}

/// The image's dimensions scaled by the configured factor, rounded down.
pub fn get_new_dimensions(image: &DynamicImage, config: &Config) -> (r: (u32, u32))
    requires
        config.wf(),
    ensures
        (r.0 as nat, r.1 as nat) == scaled_dims(image_width(*image), image_height(*image), *config),
{
    let w = width_of(image);
    let h = height_of(image);
    (scale_dimension(w, &config.scale_factor), scale_dimension(h, &config.scale_factor))
}

/// Resamples the image to its scaled height and to its scaled width times
/// `HORIZONTAL_STRETCH`.
pub fn resize_image(image: DynamicImage, config: &Config) -> (r: Result<DynamicImage, Error>)
    requires
        config.wf(),
    ensures
        ({
            let (w, h) = scaled_dims(image_width(image), image_height(image), *config);
            let tw = (w * HORIZONTAL_STRETCH) as nat;
            &&& (w == 0 || h == 0) <==> r == Err::<DynamicImage, Error>(Error::DegenerateImage)
            &&& (w > 0 && h > 0 && !resample_fits(image_width(image), tw, h)) <==> r == Err::<
                DynamicImage,
                Error,
            >(Error::TooLarge)
            &&& (w > 0 && h > 0 && resample_fits(image_width(image), tw, h)) ==> r is Ok
            &&& r matches Ok(img) ==> image_width(img) == tw && image_height(img) == h
        }),
{
    let (w, h) = get_new_dimensions(&image, config);
    if w == 0 || h == 0 {
        return Err(Error::DegenerateImage);
    }
    let source_width = width_of(&image);
    let tw: u64 = w as u64 * HORIZONTAL_STRETCH as u64;
    let limit: u128 = isize::MAX as u128;
    assert(source_width as u128 * h as u128 <= u64::MAX) by (nonlinear_arith)
        requires
            source_width <= u32::MAX,
            h <= u32::MAX,
    ;
    assert(tw as u128 * h as u128 <= 2 * (u64::MAX as u128)) by (nonlinear_arith)
        requires
            tw <= 2 * (u32::MAX as u64),
            h <= u32::MAX,
    ;
    if tw > u32::MAX as u64 || source_width as u128 * h as u128 * 16 > limit || tw as u128
        * h as u128 * 16 > limit {
        return Err(Error::TooLarge);
    }
    Ok(resize_lanczos(&image, tw as u32, h))
}

/// Scales, resamples and renders the image: one line of glyphs per row of the
/// resampled image.
pub fn render_image(image: DynamicImage, config: &Config, symbols: &Symbols) -> (r: Result<
    Vec<char>,
    Error,
>)
    requires
        config.wf(),
        symbols.wf(),
    ensures
        ({
            let (w, h) = scaled_dims(image_width(image), image_height(image), *config);
            let tw = (w * HORIZONTAL_STRETCH) as nat;
            &&& (w == 0 || h == 0) <==> r == Err::<Vec<char>, Error>(Error::DegenerateImage)
            &&& (w > 0 && h > 0 && !resample_fits(image_width(image), tw, h)) <==> r == Err::<
                Vec<char>,
                Error,
            >(Error::TooLarge)
            &&& (w > 0 && h > 0 && resample_fits(image_width(image), tw, h)) ==> r is Ok
            &&& r matches Ok(out) ==> exists|img: DynamicImage|
                {
                    &&& image_width(img) == tw
                    &&& image_height(img) == h
                    &&& out@ == render_spec(luma_samples(img), tw, h, symbols@, config.invert)
                }
        }),
{
    let resized = match resize_image(image, config) {
        Ok(img) => img,
        Err(e) => {
            return Err(e);
        },
    };
    let luma = luma_of(&resized);
    let width = width_of(&resized);
    let height = height_of(&resized);
    proof {
        assert((width + 1) * height <= width * height * 16) by (nonlinear_arith)
            requires
                width >= 1,
        ;
    }
    let out = render(&luma, width as usize, height as usize, symbols, config.invert);
    Ok(out)
}

} // verus!
