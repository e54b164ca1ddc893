use dinamika::{ChannelLayout, ColorU8, DecodedFrame, Pixmap, PngError, PremultipliedColorU8};

fn filled(w: u32, h: u32, c: ColorU8) -> Pixmap {
    let mut pm = Pixmap::new(w, h).unwrap();
    pm.fill(c.premultiply());
    pm
}

#[test]
fn encodes_png_signature() {
    let pm = filled(4, 4, ColorU8::from_rgba(10, 20, 30, 255));
    let mut buf = Vec::new();
    pm.encode_png(&mut buf).unwrap();
    assert_eq!(&buf[0..8], &[0x89, b'P', b'N', b'G', 0x0d, 0x0a, 0x1a, 0x0a]);
}

#[test]
fn unpremultiplies_alpha_roundtrip() {
    let pm = filled(1, 1, ColorU8::from_rgba(255, 0, 0, 128));
    let straight = pm.to_straight_rgba();
    assert_eq!(straight[3], 128);
    assert!((straight[0] as i32 - 255).abs() <= 2, "r={}", straight[0]);
    assert_eq!(straight[1], 0);
    assert_eq!(straight[2], 0);
}

#[test]
fn png_round_trip() {
    let pm = filled(3, 2, ColorU8::from_rgba(200, 100, 50, 255));
    let mut buf = Vec::new();
    pm.encode_png(&mut buf).unwrap();
    let decoded = Pixmap::decode_png(&buf[..]).unwrap();
    assert_eq!(decoded.width(), 3);
    assert_eq!(decoded.height(), 2);
    let p = decoded.pixel(1, 1).unwrap();
    assert_eq!((p.red(), p.green(), p.blue(), p.alpha()), (200, 100, 50, 255));
}

#[test]
fn png_round_trip_semitransparent() {
    let pm = filled(1, 1, ColorU8::from_rgba(255, 0, 0, 128));
    let mut buf = Vec::new();
    pm.encode_png(&mut buf).unwrap();
    let decoded = Pixmap::decode_png(&buf[..]).unwrap();
    let p = decoded.pixel(0, 0).unwrap();
    assert_eq!(p.alpha(), 128);
    assert!((p.red() as i32 - 128).abs() <= 2, "r={}", p.red());
}

#[test]
fn fill_then_read_pixel() {
    let pm = filled(8, 8, ColorU8::from_rgba(255, 0, 0, 255));
    let p = pm.pixel(3, 3).unwrap();
    assert_eq!((p.red(), p.green(), p.blue(), p.alpha()), (255, 0, 0, 255));
}

#[test]
fn new_refuses_zero_and_overflowing_sizes() {
    assert!(Pixmap::new(0, 5).is_none());
    assert!(Pixmap::new(5, 0).is_none());
    if usize::BITS == 32 {
        assert!(Pixmap::new(65536, 65536).is_none());
    }
    let pm = Pixmap::new(2, 3).unwrap();
    assert_eq!((pm.width(), pm.height()), (2, 3));
    assert_eq!(pm.data(), &[0u8; 24][..]);
}

#[test]
fn pixel_outside_is_none() {
    let pm = Pixmap::new(2, 2).unwrap();
    assert!(pm.pixel(2, 0).is_none());
    assert!(pm.pixel(0, 2).is_none());
    assert_eq!(pm.pixel(1, 1), Some(PremultipliedColorU8::transparent()));
}

#[test]
fn data_mut_and_take_expose_the_buffer() {
    let mut pm = Pixmap::new(1, 2).unwrap();
    pm.data_mut()[4..8].copy_from_slice(&[10, 20, 30, 40]);
    assert_eq!(pm.pixel(0, 1), Some(PremultipliedColorU8::from_rgba_unchecked(10, 20, 30, 40)));
    assert_eq!(pm.take(), vec![0, 0, 0, 0, 10, 20, 30, 40]);
}

#[test]
fn round_trip_keeps_every_valid_pixel() {
    let mut pm = Pixmap::new(3, 1).unwrap();
    pm.data_mut().copy_from_slice(&[0, 0, 0, 0, 10, 5, 1, 20, 255, 128, 0, 255]);
    let mut buf = vec![1, 2, 3];
    pm.encode_png(&mut buf).unwrap();
    assert_eq!(&buf[0..3], &[1, 2, 3]);
    let back = Pixmap::decode_png(&buf[3..]).unwrap();
    assert_eq!(back.data(), pm.data());
}

#[test]
fn decode_rejects_garbage() {
    match Pixmap::decode_png(&[1, 2, 3, 4]) {
        Err(PngError::Decode(_)) => {}
        other => panic!("expected a decode error, got {:?}", other.map(|p| p.width())),
    }
}

#[test]
fn decoded_frames_are_premultiplied_or_refused() {
    let gray = DecodedFrame { width: 2, height: 1, layout: ChannelLayout::Gray, data: vec![100, 255] };
    let pm = Pixmap::from_decoded_frame(&gray).unwrap();
    assert_eq!(pm.data(), &[100, 100, 100, 255, 255, 255, 255, 255][..]);

    let ga = DecodedFrame { width: 1, height: 1, layout: ChannelLayout::GrayAlpha, data: vec![200, 128] };
    let pm = Pixmap::from_decoded_frame(&ga).unwrap();
    assert_eq!(pm.data(), &[100, 100, 100, 128][..]);

    let rgb = DecodedFrame { width: 1, height: 1, layout: ChannelLayout::Rgb, data: vec![1, 2, 3] };
    assert_eq!(Pixmap::from_decoded_frame(&rgb).unwrap().data(), &[1, 2, 3, 255][..]);

    let short_gray = DecodedFrame { width: 2, height: 1, layout: ChannelLayout::Gray, data: vec![9] };
    assert_eq!(Pixmap::from_decoded_frame(&short_gray).unwrap().data(), &[9, 9, 9, 255, 0, 0, 0, 0][..]);

    let zero = DecodedFrame { width: 0, height: 1, layout: ChannelLayout::Rgba, data: vec![] };
    assert!(matches!(Pixmap::from_decoded_frame(&zero), Err(PngError::ZeroSize)));

    let indexed = DecodedFrame { width: 1, height: 1, layout: ChannelLayout::Indexed, data: vec![0] };
    assert!(matches!(Pixmap::from_decoded_frame(&indexed), Err(PngError::NotExpanded)));

    let short = DecodedFrame { width: 2, height: 1, layout: ChannelLayout::Rgba, data: vec![0; 7] };
    assert!(matches!(Pixmap::from_decoded_frame(&short), Err(PngError::Truncated)));
}
