use asset_packer::{pixels_from_bytes, AssetError, Image, Palette, Pixel};

fn red() -> Pixel {
    Pixel::new(255, 0, 0, 255)
}

fn green() -> Pixel {
    Pixel::new(0, 255, 0, 255)
}

fn blue() -> Pixel {
    Pixel::new(0, 0, 255, 255)
}

#[test]
fn palette_counts_distinct_colours_across_all_images() {
    let images = vec![
        Image::new(String::from("a"), vec![red(), green(), red(), red()]),
        Image::new(String::from("b"), vec![green(), blue(), green()]),
        Image::new(String::from("c"), vec![blue(), blue()]),
    ];
    let palette = Palette::new_from_images(&images);
    assert_eq!(palette.len(), 3);
}

#[test]
fn palette_keeps_the_order_in_which_colours_are_first_seen() {
    let images = vec![
        Image::new(String::from("a"), vec![green(), green(), blue()]),
        Image::new(String::from("b"), vec![red(), blue(), green()]),
    ];
    let palette = Palette::new_from_images(&images);
    assert_eq!(palette.colours(), &[green(), blue(), red()][..]);
    assert_eq!(palette.index(&green()), Some(0));
    assert_eq!(palette.index(&blue()), Some(1));
    assert_eq!(palette.index(&red()), Some(2));
}

#[test]
fn palette_of_images_without_pixels_is_empty() {
    let images = vec![
        Image::new(String::from("a"), Vec::new()),
        Image::new(String::from("b"), Vec::new()),
    ];
    let palette = Palette::new_from_images(&images);
    assert_eq!(palette.len(), 0);
    assert_eq!(palette.index(&red()), None);
}

#[test]
fn palette_of_no_images_is_empty() {
    let images: Vec<Image> = Vec::new();
    let palette = Palette::new_from_images(&images);
    assert_eq!(palette.len(), 0);
}

#[test]
fn colours_that_differ_in_one_channel_are_distinct() {
    let base = Pixel::new(10, 20, 30, 40);
    let pixels = vec![
        base,
        Pixel::new(11, 20, 30, 40),
        Pixel::new(10, 21, 30, 40),
        Pixel::new(10, 20, 31, 40),
        Pixel::new(10, 20, 30, 41),
        base,
    ];
    let images = vec![Image::new(String::from("a"), pixels)];
    let palette = Palette::new_from_images(&images);
    assert_eq!(palette.len(), 5);
    assert_eq!(palette.index(&Pixel::new(10, 20, 30, 41)), Some(4));
}

#[test]
fn index_is_the_same_at_every_query() {
    let images = vec![
        Image::new(String::from("a"), vec![red(), green()]),
        Image::new(String::from("b"), vec![green(), blue()]),
    ];
    let palette = Palette::new_from_images(&images);
    for image in images.iter() {
        for pixel in image.pixels().iter() {
            let first = palette.index(pixel);
            let second = palette.index(pixel);
            assert!(first.is_some());
            assert_eq!(first, second);
            assert_eq!(palette.colours()[first.unwrap()], *pixel);
        }
    }
}

#[test]
fn index_of_a_colour_that_was_never_seen_is_none() {
    let images = vec![Image::new(String::from("a"), vec![red(), green()])];
    let palette = Palette::new_from_images(&images);
    assert_eq!(palette.index(&blue()), None);
    assert_eq!(palette.index(&Pixel::new(255, 0, 0, 254)), None);
}

#[test]
fn image_keeps_its_name_and_pixels() {
    let image = Image::new(String::from("ship"), vec![red(), blue()]);
    assert_eq!(image.name(), "ship");
    assert_eq!(image.pixels(), &[red(), blue()][..]);
}

#[test]
fn iter_walks_the_pixels_in_their_order() {
    let image = Image::new(String::from("ship"), vec![red(), blue(), green()]);
    let walked: Vec<Pixel> = image.iter().copied().collect();
    assert_eq!(walked, vec![red(), blue(), green()]);
    let empty = Image::new(String::from("none"), Vec::new());
    assert_eq!(empty.iter().next(), None);
}

#[test]
fn the_palette_block_lists_each_colour_at_its_index() {
    let images = vec![
        Image::new(String::from("a"), vec![blue(), red()]),
        Image::new(String::from("b"), vec![green(), red(), blue()]),
    ];
    let palette = Palette::new_from_images(&images);
    let block = palette.to_asm();
    let statements: Vec<&str> = block.lines().skip(1).collect();
    assert_eq!(statements.len(), palette.len());
    for colour in [red(), green(), blue()] {
        let index: usize = palette.index(&colour).unwrap();
        assert_eq!(
            statements[index],
            format!("\tDEFB 0x{:02X}, 0x{:02X}, 0x{:02X}, 0x{:02X}", colour.r, colour.g, colour.b, colour.a)
        );
    }
}

#[test]
fn pixels_are_read_four_channel_bytes_at_a_time() {
    let bytes: Vec<u8> = vec![1, 2, 3, 4, 250, 251, 252, 253];
    let pixels = pixels_from_bytes(&bytes);
    assert_eq!(pixels, Ok(vec![Pixel::new(1, 2, 3, 4), Pixel::new(250, 251, 252, 253)]));
}

#[test]
fn no_bytes_are_no_pixels() {
    let bytes: Vec<u8> = Vec::new();
    assert_eq!(pixels_from_bytes(&bytes), Ok(Vec::new()));
}

#[test]
fn a_frame_that_ends_inside_a_pixel_is_refused() {
    let bytes: Vec<u8> = vec![1, 2, 3, 4, 5, 6];
    assert_eq!(pixels_from_bytes(&bytes), Err(AssetError::RaggedPixelData { len: 6 }));
    let short: Vec<u8> = vec![9];
    assert_eq!(pixels_from_bytes(&short), Err(AssetError::RaggedPixelData { len: 1 }));
}

#[test]
fn a_clone_is_equal_to_what_it_was_made_from() {
    let image = Image::new(String::from("ship"), vec![red(), blue(), green()]);
    let copy = image.clone();
    assert_eq!(copy, image);
    assert_eq!(copy.name(), "ship");
    assert_eq!(copy.pixels(), &[red(), blue(), green()][..]);
    let images = vec![image, copy];
    let palette = Palette::new_from_images(&images);
    let twin = palette.clone();
    assert_eq!(twin, palette);
    assert_eq!(twin.colours(), &[red(), blue(), green()][..]);
}
