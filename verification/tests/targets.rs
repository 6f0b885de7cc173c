use duck_scene::error::RenderError;
use duck_scene::renderer::target::{image_from_pixels, preferred_sample_count, scene_color_format};
use duck_scene::renderer::uniform::bytes_of_words;

use wgpu::TextureFormat;

#[test]
fn scene_color_format_promotes_to_srgb() {
    assert_eq!(scene_color_format(TextureFormat::Rgba8Unorm), TextureFormat::Rgba8UnormSrgb);
    assert_eq!(scene_color_format(TextureFormat::Bgra8Unorm), TextureFormat::Bgra8UnormSrgb);
}

#[test]
fn scene_color_format_is_idempotent() {
    assert_eq!(
        scene_color_format(TextureFormat::Rgba8UnormSrgb),
        TextureFormat::Rgba8UnormSrgb
    );
}

#[test]
fn scene_color_format_passes_through_formats_without_an_srgb_variant() {
    assert_eq!(scene_color_format(TextureFormat::Rgba16Float), TextureFormat::Rgba16Float);
}

#[test]
fn pixels_become_an_image() {
    let image = image_from_pixels(2, 1, vec![1, 2, 3, 4, 5, 6, 7, 8]).unwrap();
    assert_eq!((image.width, image.height), (2, 1));
    assert_eq!(image.data, vec![1, 2, 3, 4, 5, 6, 7, 8]);
    let short = image_from_pixels(2, 1, vec![1, 2, 3, 4, 5, 6, 7]);
    assert_eq!(short.err(), Some(RenderError::IncompleteImage));
    let long = image_from_pixels(1, 1, vec![1, 2, 3, 4, 5]).unwrap();
    assert_eq!((long.width, long.height), (1, 1));
    assert_eq!(long.data, vec![1, 2, 3, 4, 5]);
    assert!(image_from_pixels(u32::MAX, 0, vec![]).is_ok());
    let huge = image_from_pixels(u32::MAX, u32::MAX, vec![1, 2, 3, 4]);
    assert_eq!(huge.err(), Some(RenderError::IncompleteImage));
}

#[test]
fn the_highest_common_sample_count_is_preferred() {
    assert_eq!(preferred_sample_count(&vec![vec![1, 2, 4, 8, 16], vec![1, 2, 4], vec![1, 4]]), 4);
    assert_eq!(preferred_sample_count(&vec![vec![1, 8, 16], vec![8, 16]]), 16);
    assert_eq!(preferred_sample_count(&vec![vec![1, 2], vec![2, 8]]), 2);
    assert_eq!(preferred_sample_count(&vec![vec![1, 4], vec![1, 8]]), 1);
    assert_eq!(preferred_sample_count(&vec![vec![1, 4, 8], vec![]]), 1);
}

#[test]
fn words_become_little_endian_bytes() {
    assert_eq!(bytes_of_words(&vec![1, 0x0403_0201]), vec![1, 0, 0, 0, 1, 2, 3, 4]);
    assert_eq!(bytes_of_words(&vec![]), Vec::<u8>::new());
}
