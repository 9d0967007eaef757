use asset_packer::{render_assets, AssetError, Image, Pixel};

fn red() -> Pixel {
    Pixel::new(255, 0, 0, 255)
}

fn green() -> Pixel {
    Pixel::new(0, 255, 0, 255)
}

fn blue() -> Pixel {
    Pixel::new(0, 0, 255, 255)
}

#[test]
fn no_images_are_refused() {
    let images: Vec<Image> = Vec::new();
    assert_eq!(render_assets(&images), Err(AssetError::EmptyInput));
}

#[test]
fn document_of_two_images_that_share_three_colours() {
    let images = vec![
        Image::new(String::from("a"), vec![red(), green()]),
        Image::new(String::from("b"), vec![green(), blue()]),
    ];
    assert_eq!(
        render_assets(&images),
        Ok(String::from("; ###########################################################\n;              _    ____ ____  _____ _____ ____  \n;             / \\  / ___/ ___|| ____|_   _/ ___| \n;            / _ \\ \\___ \\___ \\|  _|   | | \\___ \\ \n;           / ___ \\ ___) |__) | |___  | |  ___) |\n;          /_/   \\_\\____/____/|_____| |_| |____/ \n; ###########################################################\n\nPalette\n\tDEFB 0xFF, 0x00, 0x00, 0xFF\n\tDEFB 0x00, 0xFF, 0x00, 0xFF\n\tDEFB 0x00, 0x00, 0xFF, 0xFF\n\nbits_per_colour\tEQU 2\npixels_per_byte\tEQU 4\n\n_a\n\tDEFB 0x04\n\n_b\n\tDEFB 0x09\n\nALIGN\n\nAssetAddressTable\n_ADR_a                          DEFW\t_a\n_ADR_b                          DEFW\t_b\nAssetAddressTableEnd\n\nASSET_MAX\tEQU\t(AssetAddressTableEnd - AssetAddressTable) / 4\n\nASSET_a                         EQU\t(_ADR_a                       - AssetAddressTable) / 4\nASSET_b                         EQU\t(_ADR_b                       - AssetAddressTable) / 4\n"))
    );
}

#[test]
fn document_of_one_image_of_one_colour() {
    let images = vec![Image::new(String::from("dot"), vec![Pixel::new(9, 9, 9, 9); 5])];
    assert_eq!(
        render_assets(&images),
        Ok(String::from("; ###########################################################\n;              _    ____ ____  _____ _____ ____  \n;             / \\  / ___/ ___|| ____|_   _/ ___| \n;            / _ \\ \\___ \\___ \\|  _|   | | \\___ \\ \n;           / ___ \\ ___) |__) | |___  | |  ___) |\n;          /_/   \\_\\____/____/|_____| |_| |____/ \n; ###########################################################\n\nPalette\n\tDEFB 0x09, 0x09, 0x09, 0x09\n\nbits_per_colour\tEQU 1\npixels_per_byte\tEQU 8\n\n_dot\n\tDEFB 0x00\n\nALIGN\n\nAssetAddressTable\n_ADR_dot                        DEFW\t_dot\nAssetAddressTableEnd\n\nASSET_MAX\tEQU\t(AssetAddressTableEnd - AssetAddressTable) / 4\n\nASSET_dot                       EQU\t(_ADR_dot                     - AssetAddressTable) / 4\n"))
    );
}

#[test]
fn document_of_an_image_without_pixels() {
    let images = vec![Image::new(String::from("blank"), Vec::new())];
    assert_eq!(
        render_assets(&images),
        Ok(String::from("; ###########################################################\n;              _    ____ ____  _____ _____ ____  \n;             / \\  / ___/ ___|| ____|_   _/ ___| \n;            / _ \\ \\___ \\___ \\|  _|   | | \\___ \\ \n;           / ___ \\ ___) |__) | |___  | |  ___) |\n;          /_/   \\_\\____/____/|_____| |_| |____/ \n; ###########################################################\n\nPalette\n\nbits_per_colour\tEQU 1\npixels_per_byte\tEQU 8\n\n_blank\n\nALIGN\n\nAssetAddressTable\n_ADR_blank                      DEFW\t_blank\nAssetAddressTableEnd\n\nASSET_MAX\tEQU\t(AssetAddressTableEnd - AssetAddressTable) / 4\n\nASSET_blank                     EQU\t(_ADR_blank                   - AssetAddressTable) / 4\n"))
    );
}

#[test]
fn document_of_images_with_rows_of_different_lengths() {
    let ramp: Vec<Pixel> = (0..12u8).map(|level| Pixel::new(level, 0, 0, 255)).collect();
    let mut back: Vec<Pixel> = ramp.clone();
    back.reverse();
    let images = vec![
        Image::new(String::from("ramp"), ramp),
        Image::new(String::from("pamr"), back),
        Image::new(String::from("none"), Vec::new()),
    ];
    assert_eq!(
        render_assets(&images),
        Ok(String::from("; ###########################################################\n;              _    ____ ____  _____ _____ ____  \n;             / \\  / ___/ ___|| ____|_   _/ ___| \n;            / _ \\ \\___ \\___ \\|  _|   | | \\___ \\ \n;           / ___ \\ ___) |__) | |___  | |  ___) |\n;          /_/   \\_\\____/____/|_____| |_| |____/ \n; ###########################################################\n\nPalette\n\tDEFB 0x00, 0x00, 0x00, 0xFF\n\tDEFB 0x01, 0x00, 0x00, 0xFF\n\tDEFB 0x02, 0x00, 0x00, 0xFF\n\tDEFB 0x03, 0x00, 0x00, 0xFF\n\tDEFB 0x04, 0x00, 0x00, 0xFF\n\tDEFB 0x05, 0x00, 0x00, 0xFF\n\tDEFB 0x06, 0x00, 0x00, 0xFF\n\tDEFB 0x07, 0x00, 0x00, 0xFF\n\tDEFB 0x08, 0x00, 0x00, 0xFF\n\tDEFB 0x09, 0x00, 0x00, 0xFF\n\tDEFB 0x0A, 0x00, 0x00, 0xFF\n\tDEFB 0x0B, 0x00, 0x00, 0xFF\n\nbits_per_colour\tEQU 4\npixels_per_byte\tEQU 2\n\n_ramp\n\tDEFB 0x10, 0x32, 0x54, 0x76, 0x98\n\tDEFB 0xBA\n\n_pamr\n\tDEFB 0xAB, 0x89, 0x67, 0x45, 0x23\n\tDEFB 0x01\n\n_none\n\nALIGN\n\nAssetAddressTable\n_ADR_ramp                       DEFW\t_ramp\n_ADR_pamr                       DEFW\t_pamr\n_ADR_none                       DEFW\t_none\nAssetAddressTableEnd\n\nASSET_MAX\tEQU\t(AssetAddressTableEnd - AssetAddressTable) / 4\n\nASSET_ramp                      EQU\t(_ADR_ramp                    - AssetAddressTable) / 4\nASSET_pamr                      EQU\t(_ADR_pamr                    - AssetAddressTable) / 4\nASSET_none                      EQU\t(_ADR_none                    - AssetAddressTable) / 4\n"))
    );
}

#[test]
fn the_count_of_table_entries_is_the_number_of_images() {
    for count in 1..6usize {
        let images: Vec<Image> = (0..count)
            .map(|i| Image::new(format!("image{}", i), vec![Pixel::new(i as u8, 0, 0, 255); i + 1]))
            .collect();
        let document = render_assets(&images).unwrap();
        let entries = document
            .lines()
            .skip_while(|line| *line != "AssetAddressTable")
            .skip(1)
            .take_while(|line| *line != "AssetAddressTableEnd")
            .count();
        assert_eq!(entries, count);
        for (place, image) in images.iter().enumerate() {
            let entry = document
                .lines()
                .skip_while(|line| *line != "AssetAddressTable")
                .skip(1)
                .nth(place)
                .unwrap();
            assert!(entry.starts_with(&format!("_ADR_{} ", image.name())));
            assert!(entry.ends_with(&format!("DEFW\t_{}", image.name())));
        }
    }
}

#[test]
fn the_palette_is_built_from_all_images_before_any_is_packed() {
    // the first image alone would need one bit; the set needs two
    let images = vec![
        Image::new(String::from("a"), vec![red(), red()]),
        Image::new(String::from("b"), vec![green(), blue()]),
    ];
    let document = render_assets(&images).unwrap();
    assert!(document.contains("bits_per_colour\tEQU 2\n"));
    assert!(document.contains("pixels_per_byte\tEQU 4\n"));
    assert!(document.contains("_a\n\tDEFB 0x00\n"));
    assert!(document.contains("_b\n\tDEFB 0x09\n"));
}

#[test]
fn a_palette_of_256_colours_takes_a_byte_for_each_pixel() {
    let pixels: Vec<Pixel> = (0..=255u8).map(|level| Pixel::new(0, level, 0, 255)).collect();
    let images = vec![Image::new(String::from("wide"), pixels)];
    let document = render_assets(&images).unwrap();
    assert!(document.contains("bits_per_colour\tEQU 8\n"));
    assert!(document.contains("pixels_per_byte\tEQU 1\n"));
    assert!(document.contains("\tDEFB 0xFA, 0xFB, 0xFC, 0xFD, 0xFE\n\tDEFB 0xFF\n"));
}

#[test]
fn more_than_256_colours_are_refused() {
    let mut pixels: Vec<Pixel> = (0..=255u8).map(|level| Pixel::new(0, level, 0, 255)).collect();
    pixels.push(Pixel::new(1, 0, 0, 255));
    let images = vec![Image::new(String::from("wide"), pixels)];
    assert_eq!(render_assets(&images), Err(AssetError::UnsupportedBitWidth));
}

#[test]
fn a_width_of_five_bits_holds_one_index_to_a_byte() {
    let pixels: Vec<Pixel> = (0..17u8).map(|level| Pixel::new(0, 0, level, 255)).collect();
    let images = vec![Image::new(String::from("p"), pixels)];
    let document = render_assets(&images).unwrap();
    assert!(document.contains("bits_per_colour\tEQU 5\npixels_per_byte\tEQU 1\n\n_p\n"));
}
