use lighting_overlay::pixel::{blend_pixels, Rgba};

fn px(r: u8, g: u8, b: u8, a: u8) -> Rgba {
    Rgba { r, g, b, a }
}

#[test]
fn transparent_top_keeps_bottom() {
    let bottoms = [
        px(10, 20, 30, 40),
        px(0, 0, 0, 0),
        px(255, 255, 255, 255),
        px(1, 2, 3, 254),
    ];
    for bottom in bottoms {
        let out = blend_pixels(bottom, px(99, 98, 97, 0));
        assert_eq!(out, bottom);
    }
}

#[test]
fn opaque_top_replaces_bottom() {
    let bottoms = [px(10, 20, 30, 40), px(0, 0, 0, 0), px(255, 255, 255, 255)];
    for bottom in bottoms {
        for c in [0u8, 7, 128, 255] {
            let out = blend_pixels(bottom, px(c, c, c, 255));
            assert_eq!(out, px(c, c, c, 255));
        }
    }
}

#[test]
fn black_overlay_on_white() {
    // alpha 102 of black over opaque white: channels (255 * 153) / 255 = 153
    let out = blend_pixels(px(255, 255, 255, 255), px(0, 0, 0, 102));
    assert_eq!(out, px(153, 153, 153, 255));
}

#[test]
fn semi_transparent_layers() {
    // bottom (100, 50, 0, 128), top black alpha 102:
    // den = 255*102 + 128*153 = 45594
    // r = 100*128*153 / 45594 = 42, g = 50*128*153 / 45594 = 21, b = 0
    // a = (45594 + 127) / 255 = 179
    let out = blend_pixels(px(100, 50, 0, 128), px(0, 0, 0, 102));
    assert_eq!(out, px(42, 21, 0, 179));
}

#[test]
fn both_fully_transparent_keeps_bottom() {
    let bottom = px(5, 6, 7, 0);
    let out = blend_pixels(bottom, px(0, 0, 0, 0));
    assert_eq!(out, bottom);
}
