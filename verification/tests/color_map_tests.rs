use std::io::Cursor;

use raytracer::obj_file::ObjError;
use raytracer::{color_map_data, ImageKind};

fn png_bytes() -> Vec<u8> {
    let mut img = image::RgbaImage::new(2, 1);
    img.put_pixel(0, 0, image::Rgba([1, 2, 3, 255]));
    img.put_pixel(1, 0, image::Rgba([4, 5, 6, 7]));
    let mut out = Cursor::new(Vec::new());
    img.write_to(&mut out, image::ImageFormat::Png).unwrap();
    out.into_inner()
}

#[test]
fn color_map_holds_the_pixels_row_by_row() {
    let data = color_map_data(&png_bytes(), ImageKind::Png).ok().unwrap();
    assert_eq!(data.width, 2);
    assert_eq!(data.height, 1);
    assert_eq!(data.pixels, vec![[1, 2, 3, 255], [4, 5, 6, 7]]);
}

#[test]
fn color_map_of_bytes_that_are_no_image_fails() {
    match color_map_data(&[1, 2, 3], ImageKind::Bmp) {
        Err(ObjError::General(m)) => assert_eq!(m, "load_color_map: the image could not be decoded"),
        _ => panic!("expected an error"),
    }
}

#[test]
fn rgba_bytes_become_one_pixel_per_position() {
    let raw = [1u8, 2, 3, 4, 5, 6, 7, 8, 9, 10, 11, 12, 99];
    let data = raytracer::color_map_from_rgba(3, 1, &raw);
    assert_eq!(data.width, 3);
    assert_eq!(data.height, 1);
    assert_eq!(data.pixels, vec![[1, 2, 3, 4], [5, 6, 7, 8], [9, 10, 11, 12]]);
}
