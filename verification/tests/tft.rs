use nextion_tft_toolkit::target::Target;
use nextion_tft_toolkit::tft::{
    find_text_record_by_geometry, parse_geom_set_spec, parse_header, parse_text_set_spec,
    patch_component_color_font, patch_geom, patch_text, text_record_offset, HEADER_LEN,
    HEIGHT_OFFSET, MAGIC, MAGIC_OFFSET, TEXT_RECORD_LEN, TOTAL_SIZE_OFFSET, WIDTH_OFFSET,
};
use nextion_tft_toolkit::TftError;

fn synthetic_header(width: u16, height: u16, total_size: u32) -> Vec<u8> {
    let mut h = vec![0u8; HEADER_LEN];
    h[0] = 0x00;
    h[1] = 0x01;
    h[MAGIC_OFFSET] = MAGIC[0];
    h[MAGIC_OFFSET + 1] = MAGIC[1];
    h[WIDTH_OFFSET..WIDTH_OFFSET + 2].copy_from_slice(&width.to_le_bytes());
    h[HEIGHT_OFFSET..HEIGHT_OFFSET + 2].copy_from_slice(&height.to_le_bytes());
    h[TOTAL_SIZE_OFFSET..TOTAL_SIZE_OFFSET + 4].copy_from_slice(&total_size.to_le_bytes());
    h
}

fn text_component_record(x: u16, y: u16, w: u16, h: u16, pco: u16, font: u8) -> Vec<u8> {
    let mut rec = vec![0u8; TEXT_RECORD_LEN];
    rec[text_record_offset::X..text_record_offset::X + 2].copy_from_slice(&x.to_le_bytes());
    rec[text_record_offset::Y..text_record_offset::Y + 2].copy_from_slice(&y.to_le_bytes());
    rec[text_record_offset::W..text_record_offset::W + 2].copy_from_slice(&w.to_le_bytes());
    rec[text_record_offset::H..text_record_offset::H + 2].copy_from_slice(&h.to_le_bytes());
    let endx = x + w - 1;
    let endy = y + h - 1;
    rec[text_record_offset::ENDX..text_record_offset::ENDX + 2]
        .copy_from_slice(&endx.to_le_bytes());
    rec[text_record_offset::ENDY..text_record_offset::ENDY + 2]
        .copy_from_slice(&endy.to_le_bytes());
    rec[text_record_offset::PCO..text_record_offset::PCO + 2]
        .copy_from_slice(&pco.to_le_bytes());
    rec[text_record_offset::FONT] = font;
    rec
}

#[test]
fn parse_header_accepts_matching_target() {
    let mut data = synthetic_header(800, 480, HEADER_LEN as u32);
    data.resize(HEADER_LEN, 0);
    let total = data.len() as u32;
    data[TOTAL_SIZE_OFFSET..TOTAL_SIZE_OFFSET + 4].copy_from_slice(&total.to_le_bytes());

    let header = parse_header(&data, Target::Nx8048p050011rY).unwrap();
    assert_eq!(header.width, 800);
    assert_eq!(header.height, 480);
}

#[test]
fn parse_header_rejects_bad_magic() {
    let mut data = synthetic_header(800, 480, HEADER_LEN as u32);
    data[MAGIC_OFFSET] = 0xFF;
    assert!(matches!(
        parse_header(&data, Target::Nx8048p050011rY),
        Err(TftError::BadMagic(..))
    ));
}

#[test]
fn parse_header_rejects_dimension_mismatch() {
    let data = synthetic_header(320, 240, HEADER_LEN as u32);
    assert!(matches!(
        parse_header(&data, Target::Nx8048p050011rY),
        Err(TftError::DimensionMismatch { .. })
    ));
}

#[test]
fn parse_header_rejects_size_mismatch() {
    let data = synthetic_header(800, 480, 999);
    assert!(matches!(
        parse_header(&data, Target::Nx8048p050011rY),
        Err(TftError::SizeMismatch { .. })
    ));
}

#[test]
fn parse_header_rejects_too_small_buffer() {
    let data = vec![0u8; 10];
    assert!(matches!(
        parse_header(&data, Target::Nx8048p050011rY),
        Err(TftError::TooSmall(10))
    ));
}

#[test]
fn patch_text_overwrites_unique_match_and_pads_with_nul() {
    let mut data = b"prefix OLDTEXT\0\0\0\0 suffix".to_vec();
    let off = patch_text(&mut data, "OLDTEXT", "NEW").unwrap();
    assert_eq!(&data[off..off + 3], b"NEW");
    assert_eq!(&data[off + 3..off + 7], b"\0\0\0\0");
}

#[test]
fn patch_text_errors_when_not_found() {
    let mut data = b"nothing here".to_vec();
    assert!(matches!(
        patch_text(&mut data, "MISSING", "X"),
        Err(TftError::NotFound(_))
    ));
}

#[test]
fn patch_text_errors_when_ambiguous() {
    let mut data = b"AAAA BBBB AAAA".to_vec();
    assert!(matches!(
        patch_text(&mut data, "AAAA", "ZZZZ"),
        Err(TftError::Ambiguous { count: 2, .. })
    ));
}

#[test]
fn patch_text_rejects_longer_replacement() {
    let mut data = b"short".to_vec();
    assert!(matches!(
        patch_text(
            &mut data,
            "short",
            "much longer than five chars and over slot"
        ),
        Err(TftError::TextTooLong(..))
    ));
}

#[test]
fn patch_geom_rewrites_quad_and_recomputes_endx_endy() {
    let mut data = vec![0u8; 20];
    data[4..12].copy_from_slice(&[72, 0, 22, 0, 180, 0, 60, 0]);
    let off = patch_geom(&mut data, (72, 22, 180, 60), (100, 50, 200, 80), None).unwrap();
    assert_eq!(off, 4);
    let nx = u16::from_le_bytes([data[4], data[5]]);
    let ny = u16::from_le_bytes([data[6], data[7]]);
    let nw = u16::from_le_bytes([data[8], data[9]]);
    let nh = u16::from_le_bytes([data[10], data[11]]);
    let endx = u16::from_le_bytes([data[12], data[13]]);
    let endy = u16::from_le_bytes([data[14], data[15]]);
    assert_eq!((nx, ny, nw, nh), (100, 50, 200, 80));
    assert_eq!(endx, 299);
    assert_eq!(endy, 129);
}

#[test]
fn patch_geom_errors_when_ambiguous_without_at() {
    let mut data = vec![0u8; 40];
    let quad = [10u8, 0, 10, 0, 10, 0, 10, 0];
    data[0..8].copy_from_slice(&quad);
    data[20..28].copy_from_slice(&quad);
    assert!(matches!(
        patch_geom(&mut data, (10, 10, 10, 10), (1, 1, 1, 1), None),
        Err(TftError::Ambiguous { count: 2, .. })
    ));
}

#[test]
fn patch_geom_disambiguates_with_at() {
    let mut data = vec![0u8; 40];
    let quad = [10u8, 0, 10, 0, 10, 0, 10, 0];
    data[0..8].copy_from_slice(&quad);
    data[20..28].copy_from_slice(&quad);
    let off = patch_geom(&mut data, (10, 10, 10, 10), (1, 1, 1, 1), Some(20)).unwrap();
    assert_eq!(off, 20);
    assert_eq!(&data[0..8], &quad);
}

#[test]
fn patch_geom_rejects_at_offset_not_in_hits() {
    let mut data = vec![0u8; 20];
    data[4..12].copy_from_slice(&[10, 0, 10, 0, 10, 0, 10, 0]);
    assert!(matches!(
        patch_geom(&mut data, (10, 10, 10, 10), (1, 1, 1, 1), Some(999)),
        Err(TftError::OffsetNotAMatch(..))
    ));
}

#[test]
fn find_text_record_by_geometry_locates_record_start() {
    let rec = text_component_record(72, 22, 180, 60, 0xffff, 2);
    let mut data = vec![0u8; 16];
    data.extend_from_slice(&rec);

    let start = find_text_record_by_geometry(&data, (72, 22, 180, 60)).unwrap();
    assert_eq!(start, 16);
}

#[test]
fn patch_component_color_font_writes_expected_offsets() {
    let rec = text_component_record(72, 22, 180, 60, 0xffff, 2);
    let mut data = rec;
    patch_component_color_font(&mut data, 0, Some(0x049f), Some(5)).unwrap();

    let pco = u16::from_le_bytes([
        data[text_record_offset::PCO],
        data[text_record_offset::PCO + 1],
    ]);
    assert_eq!(pco, 0x049f);
    assert_eq!(data[text_record_offset::FONT], 5);
}

#[test]
fn patch_component_color_font_errors_past_end_of_file() {
    let mut data = vec![0u8; 10];
    assert!(patch_component_color_font(&mut data, 5, Some(1), None).is_err());
}

#[test]
fn parse_text_set_spec_splits_on_first_equals() {
    let (old, new) = parse_text_set_spec("OLD=NEW=WITH=EQUALS").unwrap();
    assert_eq!(old, "OLD");
    assert_eq!(new, "NEW=WITH=EQUALS");
}

#[test]
fn parse_geom_set_spec_parses_both_quads() {
    let (old, new) = parse_geom_set_spec("1,2,3,4=5,6,7,8").unwrap();
    assert_eq!(old, (1, 2, 3, 4));
    assert_eq!(new, (5, 6, 7, 8));
}

#[test]
fn parse_geom_set_spec_rejects_malformed_input() {
    assert!(parse_geom_set_spec("1,2,3=4,5,6,7").is_err());
    assert!(parse_geom_set_spec("no-equals").is_err());
}
