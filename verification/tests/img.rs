use nasir::img::{approximate_image, get_image, get_img_viewport};

#[test]
fn img_viewport() {
    assert_eq!(get_img_viewport((2, 2), (4, 4)), (2, 2));
    assert_eq!(get_img_viewport((4, 4), (2, 2)), (2, 2));
    assert_eq!(get_img_viewport((2, 4), (4, 4)), (2, 4));
    assert_eq!(get_img_viewport((10, 10), (8, 4)), (4, 4));
    assert_eq!(get_img_viewport((20, 10), (8, 4)), (8, 4));
}

#[test]
fn decode_garbage_fails() {
    let err = get_image(&vec![1u8, 2, 3, 4]).unwrap_err();
    assert_eq!(err, String::from("Decoding Error"));
}

#[test]
fn decode_and_approximate_round_trip() {
    // encode a real 2x2 red PNG with the image crate, then decode it
    // through the library and draw it
    let img = image::RgbaImage::from_pixel(2, 2, image::Rgba([255, 0, 0, 255]));
    let mut buf = std::io::Cursor::new(Vec::new());
    img.write_to(&mut buf, image::ImageFormat::Png).unwrap();
    let raster = get_image(&buf.into_inner()).unwrap();
    assert_eq!(raster.width, 2);
    assert_eq!(raster.height, 2);
    assert_eq!(raster.pixels.len(), 16);
    assert_eq!(&raster.pixels[0..4], &[255, 0, 0, 255]);
    let lines = approximate_image(&raster, (10, 4));
    // the fitted grid is two rows tall: one glyph line per grid row
    assert_eq!(lines.len(), 2);
    // alpha weighting gives channel 255 * 255 / 256 = 254, cube index 196
    assert!(lines[0].display(false).contains("\x1b[38;5;196;38;2;254;0;0m"));
    assert_eq!(lines[0].display(false), lines[1].display(false));
}
