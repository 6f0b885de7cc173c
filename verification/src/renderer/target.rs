//! The formats of what is rendered into, and reading it back.

use crate::error::RenderError;
use vstd::prelude::*;
use wgpu::TextureFormat;

verus! {

/// `wgpu::TextureFormat`, the layout of the texels of a texture.
#[verifier::external_type_specification]
#[verifier::external_body]
pub struct ExTextureFormat(TextureFormat);

/// The format that `wgpu::TextureFormat::add_srgb_suffix` gives.
pub uninterp spec fn srgb_variant(format: TextureFormat) -> TextureFormat;

/// Calls `wgpu::TextureFormat::add_srgb_suffix`, which gives the variant of a format that
/// encodes color on writing, or the format itself where there is none. A format that is
/// such a variant already has no other.
#[verifier::external_body]
fn add_srgb_suffix(format: TextureFormat) -> (variant: TextureFormat)
    ensures
        variant == srgb_variant(format),
        srgb_variant(variant) == variant,
{
    format.add_srgb_suffix()
}

/// The color format that scene passes render at, given a final presentation format.
///
/// Scene shaders write linear color and rely on the target to apply the transfer encode,
/// so the scene target is always the encoding variant. Formats with no such variant are
/// returned unchanged.
pub fn scene_color_format(format: TextureFormat) -> (scene: TextureFormat)
    ensures
        scene == srgb_variant(format),
        srgb_variant(scene) == scene,
{
    add_srgb_suffix(format)
}

/// The numbers of samples per pixel that there are.
pub open spec fn is_sample_count(count: u32) -> bool {
    count == 1 || count == 2 || count == 4 || count == 8 || count == 16
}

/// Whether every format has this number of samples per pixel, given what each has.
pub open spec fn all_support(supported: Seq<Vec<u32>>, count: u32) -> bool {
    forall|i: int| 0 <= i < supported.len() ==> (#[trigger] supported[i])@.contains(count)
}

fn supports(counts: &Vec<u32>, count: u32) -> (yes: bool)
    ensures
        yes == counts@.contains(count),
{
    let mut i: usize = 0;
    while i < counts.len()
        invariant
            i <= counts.len(),
            forall|k: int| 0 <= k < i ==> counts@[k] != count,
        decreases counts.len() - i,
    {
        if counts[i] == count {
            return true;
        }
        i += 1;
    }
    false
}

fn all_formats_support(supported: &Vec<Vec<u32>>, count: u32) -> (yes: bool)
    ensures
        yes == all_support(supported@, count),
{
    let mut i: usize = 0;
    while i < supported.len()
        invariant
            i <= supported.len(),
            forall|k: int| 0 <= k < i ==> (#[trigger] supported@[k])@.contains(count),
        decreases supported.len() - i,
    {
        if !supports(&supported[i], count) {
            return false;
        }
        i += 1;
    }
    true
}

/// The highest number of samples per pixel that can be rendered with, or one when
/// multisampling is unavailable. `supported` holds what the adapter has for each format
/// that a frame needs.
pub fn preferred_sample_count(supported: &Vec<Vec<u32>>) -> (count: u32)
    ensures
        is_sample_count(count),
        count == 1 || all_support(supported@, count),
        forall|c: u32|
            is_sample_count(c) && #[trigger] all_support(supported@, c) ==> c <= count,
{
    if all_formats_support(supported, 16) {
        16
    } else if all_formats_support(supported, 8) {
        8
    } else if all_formats_support(supported, 4) {
        4
    } else if all_formats_support(supported, 2) {
        2
    } else {
        1
    }
}

/// Pixels with four bytes each, row by row from the top.
#[derive(Debug)]
pub struct RgbaPixels {
    pub width: u32,
    pub height: u32,
    pub data: Vec<u8>,
}

/// How many bytes an image takes.
pub open spec fn image_size(width: u32, height: u32) -> int {
    4 * width * height
}

/// Whether a buffer of this length holds an image of this size, whose rows can be
/// addressed on this machine.
pub open spec fn holds_image(width: u32, height: u32, len: nat) -> bool {
    4 * width <= usize::MAX && image_size(width, height) <= len
}

/// Calls `image::RgbaImage::from_raw`, which takes a buffer as the pixels of an image. It
/// refuses a buffer that is too short, and leaves one that is longer as it is. It counts
/// the bytes of a row first, and refuses also when these overflow a `usize`.
#[verifier::external_body]
fn from_raw(width: u32, height: u32, data: Vec<u8>) -> (image: Option<RgbaPixels>)
    ensures
        image is Some == holds_image(width, height, data@.len()),
        image matches Some(image) ==> image.width == width && image.height == height
            && image.data@ == data@,
{
    image::RgbaImage::from_raw(width, height, data).map(
        |image: image::RgbaImage| RgbaPixels {
            width: image.width(),
            height: image.height(),
            data: image.into_raw(),
        },
    )
}

/// The image that was read back from a target.
pub fn image_from_pixels(width: u32, height: u32, data: Vec<u8>) -> (image: Result<
    RgbaPixels,
    RenderError,
>)
    ensures
        match image {
            Ok(image) => holds_image(width, height, data@.len()) && image.width == width
                && image.height == height && image.data@ == data@,
            Err(e) => !holds_image(width, height, data@.len()) && e
                == RenderError::IncompleteImage,
        },
{
    match from_raw(width, height, data) {
        Some(image) => Ok(image),
        None => Err(RenderError::IncompleteImage),
    }
}

} // verus!
