use lighting_overlay::image_buf::RgbaImage;
use lighting_overlay::naming::resolve_files;
use lighting_overlay::overlay::apply_overlay;
use lighting_overlay::pixel::Rgba;
use std::io::Cursor;

fn to_png_bytes(img: &RgbaImage) -> Vec<u8> {
    let mut out = image::RgbaImage::new(img.width, img.height);
    for y in 0..img.height {
        for x in 0..img.width {
            let p = img.get_pixel(x, y);
            out.put_pixel(x, y, image::Rgba([p.r, p.g, p.b, p.a]));
        }
    }
    let mut bytes: Vec<u8> = Vec::new();
    out.write_to(&mut Cursor::new(&mut bytes), image::ImageFormat::Png)
        .expect("encoding to PNG failed");
    bytes
}

#[test]
fn encoded_output_decodes_to_the_blended_pixels() {
    // a 6x6 image of varied pixels, darkened by a 2x2 grid
    let mut img = RgbaImage::new(6, 6, Rgba { r: 0, g: 0, b: 0, a: 0 });
    for y in 0..6u32 {
        for x in 0..6u32 {
            let p = Rgba {
                r: (40 * x) as u8,
                g: (40 * y) as u8,
                b: 200,
                a: 255,
            };
            img.put_pixel(x, y, p);
        }
    }
    let grid: Vec<Vec<Option<u8>>> = vec![vec![Some(120), None], vec![None, Some(60)]];
    apply_overlay(&mut img, &grid);

    let bytes = to_png_bytes(&img);
    let decoded = image::load_from_memory(&bytes).expect("decoding failed").to_rgba8();
    assert_eq!(decoded.width(), 6);
    assert_eq!(decoded.height(), 6);
    for y in 0..6u32 {
        for x in 0..6u32 {
            let p = img.get_pixel(x, y);
            assert_eq!(decoded.get_pixel(x, y).0, [p.r, p.g, p.b, p.a], "at ({x},{y})");
        }
    }
}

#[test]
fn two_depths_use_independently_prepared_buffers() {
    // two depth levels and a single template: each level gets its own
    // output name and its own freshly prepared buffer
    let files = resolve_files(2, vec!["map_$z.png".to_string()]).unwrap();
    assert_eq!(files, vec!["map_1.png".to_string(), "map_2.png".to_string()]);

    let grid_a: Vec<Vec<Option<u8>>> = vec![vec![Some(102)]];
    let grid_b: Vec<Vec<Option<u8>>> = vec![vec![None]];
    let white = Rgba { r: 255, g: 255, b: 255, a: 255 };

    let mut first = RgbaImage::new(4, 4, white);
    apply_overlay(&mut first, &grid_a);
    let mut second = RgbaImage::new(4, 4, white);
    apply_overlay(&mut second, &grid_b);

    // the second buffer shows no trace of the first overlay
    assert_eq!(second.get_pixel(0, 0), white);
    assert_eq!(first.get_pixel(0, 0), Rgba { r: 153, g: 153, b: 153, a: 255 });
    assert_eq!(first.get_pixel(3, 3), white);
}
