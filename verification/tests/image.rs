use animstudio::image::decode_png;

fn encode(w: u32, h: u32, color: png::ColorType, depth: png::BitDepth, data: &[u8]) -> Vec<u8> {
    let mut out = Vec::new();
    {
        let mut enc = png::Encoder::new(&mut out, w, h);
        enc.set_color(color);
        enc.set_depth(depth);
        let mut writer = enc.write_header().unwrap();
        writer.write_image_data(data).unwrap();
    }
    out
}

#[test]
fn rgb_and_grey_become_straight_rgba() {
    let rgb = encode(2, 1, png::ColorType::Rgb, png::BitDepth::Eight, &[1, 2, 3, 4, 5, 6]);
    assert_eq!(decode_png(&rgb).unwrap(), (2, 1, vec![1, 2, 3, 255, 4, 5, 6, 255]));
    let ga = encode(1, 2, png::ColorType::GrayscaleAlpha, png::BitDepth::Eight, &[9, 128, 7, 0]);
    assert_eq!(decode_png(&ga).unwrap(), (1, 2, vec![9, 9, 9, 128, 7, 7, 7, 0]));
    let rgba = encode(1, 1, png::ColorType::Rgba, png::BitDepth::Eight, &[10, 20, 30, 40]);
    assert_eq!(decode_png(&rgba).unwrap(), (1, 1, vec![10, 20, 30, 40]));
    let grey = encode(3, 1, png::ColorType::Grayscale, png::BitDepth::Eight, &[0, 100, 255]);
    assert_eq!(decode_png(&grey).unwrap(), (3, 1, vec![0, 0, 0, 255, 100, 100, 100, 255, 255, 255, 255, 255]));
}

#[test]
fn one_bit_art_is_expanded() {
    // 8 pixels of 1-bit grey in one byte: 1010_0000.
    let bits = encode(8, 1, png::ColorType::Grayscale, png::BitDepth::One, &[0b1010_0000]);
    let (w, h, px) = decode_png(&bits).unwrap();
    assert_eq!((w, h), (8, 1));
    let greys: Vec<u8> = px.chunks(4).map(|p| p[0]).collect();
    assert_eq!(greys, vec![255, 0, 255, 0, 0, 0, 0, 0]);
}

#[test]
fn sixteen_bit_and_garbage_are_refused() {
    let deep = encode(1, 1, png::ColorType::Rgb, png::BitDepth::Sixteen, &[0; 6]);
    assert_eq!(decode_png(&deep), Err("png: unsupported bit depth Sixteen".to_string()));
    let err = decode_png(&b"not a png".to_vec()).unwrap_err();
    assert!(err.starts_with("png: "), "{err}");
}
