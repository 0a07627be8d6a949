use vstd::prelude::*;
use image::{DynamicImage, ImageError};

verus! {

#[verifier::external_type_specification]
#[verifier::external_body]
pub struct ExDynamicImage(DynamicImage);

#[verifier::external_type_specification]
#[verifier::external_body]
pub struct ExImageError(ImageError);

/// Number of columns of a decoded image.
pub uninterp spec fn image_width(img: DynamicImage) -> nat;

/// Number of rows of a decoded image.
pub uninterp spec fn image_height(img: DynamicImage) -> nat;

/// The image's luminance samples, one per pixel, row by row.
pub uninterp spec fn luma_samples(img: DynamicImage) -> Seq<u8>;

/// Relies on `image::load_from_memory`: decodes an encoded image, guessing its
/// format from the bytes.
#[verifier::external_body]
pub(crate) fn decode(bytes: &[u8]) -> (r: Result<DynamicImage, ImageError>) {
    image::load_from_memory(bytes)
}

/// Relies on `DynamicImage::width`.
#[verifier::external_body]
pub(crate) fn width_of(img: &DynamicImage) -> (r: u32)
    ensures
        r == image_width(*img),
{
    img.width()
}

/// Relies on `DynamicImage::height`.
#[verifier::external_body]
pub(crate) fn height_of(img: &DynamicImage) -> (r: u32)
    ensures
        r == image_height(*img),
{
    img.height()
}

/// Relies on `DynamicImage::resize_exact` with the Lanczos filter: the result
/// is `width` by `height`. Its buffers (one of them with four `f32` channels)
/// must be addressable, or the allocation panics.
#[verifier::external_body]
pub(crate) fn resize_lanczos(img: &DynamicImage, width: u32, height: u32) -> (r: DynamicImage)
    requires
        width > 0,
        height > 0,
        image_width(*img) * height * 16 <= isize::MAX,
        width * height * 16 <= isize::MAX,
    ensures
        image_width(r) == width,
        image_height(r) == height,
{
    img.resize_exact(width, height, image::imageops::FilterType::Lanczos3)
}

/// Relies on `DynamicImage::to_luma8` and `ImageBuffer::into_raw`: one
/// luminance sample per pixel, row by row, with the image's width and height.
/// The raw buffer may run past the last row.
#[verifier::external_body]
pub(crate) fn luma_of(img: &DynamicImage) -> (r: Vec<u8>)
    ensures
        r@ == luma_samples(*img),
        r@.len() >= image_width(*img) * image_height(*img),
{
    img.to_luma8().into_raw()
}

} // verus!
