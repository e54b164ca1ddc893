use dinamika::{FaceError, Font, FontError};

#[test]
fn invalid_data_fails_to_parse() {
    match Font::from_slice(&[0u8; 16]) {
        Ok(_) => panic!("garbage bytes must not parse as a font"),
        Err(err) => {
            assert!(matches!(err, FontError::Parse(_)));
            assert!(!err.message().is_empty());
        }
    }
}

#[test]
fn parse_error_message_names_the_cause() {
    let err = match Font::from_collection(&[0u8; 4], 3) {
        Ok(_) => panic!("four zero bytes are no font"),
        Err(e) => e,
    };
    let FontError::Parse(cause) = err;
    assert_eq!(cause, FaceError::UnknownMagic);
    assert_eq!(err.message(), format!("failed to parse font: {}", cause.text()));
    assert_eq!(err.message(), "failed to parse font: unknown magic");
    assert!(err.message().starts_with("failed to parse font: "));
}

#[test]
fn empty_data_fails_to_parse() {
    assert!(Font::from_slice(&[]).is_err());
}

fn be16(out: &mut Vec<u8>, v: u16) {
    out.extend_from_slice(&v.to_be_bytes());
}

fn be32(out: &mut Vec<u8>, v: u32) {
    out.extend_from_slice(&v.to_be_bytes());
}

/// A minimal TrueType face: em 1000, ascender 800, descender -200, three
/// glyphs (`.notdef` advancing 500, `A` 600, `B` 700) and a Unicode `cmap`
/// mapping `A` and `B`.
fn tiny_font() -> Vec<u8> {
    let mut cmap = Vec::new();
    be16(&mut cmap, 0);
    be16(&mut cmap, 1);
    be16(&mut cmap, 0); // Unicode platform
    be16(&mut cmap, 4);
    be32(&mut cmap, 12);
    be16(&mut cmap, 12); // segmented coverage
    be16(&mut cmap, 0);
    be32(&mut cmap, 28);
    be32(&mut cmap, 0);
    be32(&mut cmap, 1);
    be32(&mut cmap, 'A' as u32);
    be32(&mut cmap, 'B' as u32);
    be32(&mut cmap, 1);

    let mut head = Vec::new();
    be32(&mut head, 0x0001_0000);
    be32(&mut head, 0);
    be32(&mut head, 0);
    be32(&mut head, 0x5F0F_3CF5);
    be16(&mut head, 0);
    be16(&mut head, 1000); // units per em
    head.extend_from_slice(&[0u8; 16]); // created, modified
    head.extend_from_slice(&[0u8; 8]); // bounding box
    be16(&mut head, 0);
    be16(&mut head, 0);
    be16(&mut head, 0);
    be16(&mut head, 0); // short offsets
    be16(&mut head, 0);

    let mut hhea = Vec::new();
    be32(&mut hhea, 0x0001_0000);
    be16(&mut hhea, 800);
    be16(&mut hhea, (-200i16) as u16);
    be16(&mut hhea, 0);
    hhea.extend_from_slice(&[0u8; 24]);
    be16(&mut hhea, 3); // horizontal metrics

    let mut hmtx = Vec::new();
    for advance in [500u16, 600, 700] {
        be16(&mut hmtx, advance);
        be16(&mut hmtx, 0);
    }

    let mut maxp = Vec::new();
    be32(&mut maxp, 0x0000_5000);
    be16(&mut maxp, 3);

    let tables: [(&[u8; 4], Vec<u8>); 5] =
        [(b"cmap", cmap), (b"head", head), (b"hhea", hhea), (b"hmtx", hmtx), (b"maxp", maxp)];
    let mut font = Vec::new();
    be32(&mut font, 0x0001_0000);
    be16(&mut font, tables.len() as u16);
    be16(&mut font, 0);
    be16(&mut font, 0);
    be16(&mut font, 0);
    let mut offset = 12 + 16 * tables.len();
    let mut body = Vec::new();
    for (tag, data) in tables.iter() {
        font.extend_from_slice(&tag[..]);
        be32(&mut font, 0);
        be32(&mut font, offset as u32);
        be32(&mut font, data.len() as u32);
        body.extend_from_slice(data);
        while body.len() % 4 != 0 {
            body.push(0);
        }
        offset = 12 + 16 * tables.len() + body.len();
    }
    font.extend_from_slice(&body);
    font
}

#[test]
fn tiny_font_metrics_in_font_units() {
    let data = tiny_font();
    let font = Font::from_slice(&data).unwrap();
    assert_eq!(font.units_per_em(), 1000);
    assert_eq!(font.ascender_units(), 800);
    assert_eq!(font.descender_units(), -200);
    assert_eq!(font.line_height_units(), 1000);
    assert_eq!(font.index(), 0);
    assert_eq!(font.data().len(), data.len());
}

#[test]
fn missing_glyphs_fall_back_to_notdef() {
    let data = tiny_font();
    let font = Font::from_slice(&data).unwrap();
    assert_eq!(font.glyph_for('A'), 1);
    assert_eq!(font.glyph_for('B'), 2);
    assert_eq!(font.glyph_for('z'), 0);
    assert_eq!(font.advance_units('A'), 600);
    assert_eq!(font.advance_units('B'), 700);
    assert_eq!(font.advance_units('z'), 500);
}

#[test]
fn measure_takes_the_widest_line() {
    let data = tiny_font();
    let font = Font::from_slice(&data).unwrap();
    assert_eq!(font.measure_units(""), 0);
    assert_eq!(font.measure_units("AB"), 1300);
    assert_eq!(font.measure_units("AB\nA"), 1300);
    assert_eq!(font.measure_units("A\nBBB"), 2100);
    assert_eq!(font.measure_units("A\n"), 600);
    assert_eq!(font.measure_units("zz"), 1000);
}

#[test]
fn single_face_file_has_no_second_face() {
    let data = tiny_font();
    assert!(Font::from_collection(&data, 0).is_ok());
    match Font::from_collection(&data, 1) {
        Ok(_) => panic!("a single-face file has only face 0"),
        Err(e) => assert_eq!(e.message(), "failed to parse font: face index is out of bounds"),
    }
}

#[test]
fn layout_places_characters_on_lines() {
    let data = tiny_font();
    let font = Font::from_slice(&data).unwrap();
    assert_eq!(font.layout_units("AB\nAz"), vec![(0, 0), (600, 0), (1300, 0), (0, 1), (600, 1)]);
    assert_eq!(font.layout_units(""), Vec::<(u128, usize)>::new());
    assert_eq!(font.layout_units("\n\nB"), vec![(0, 0), (0, 1), (0, 2)]);
}
