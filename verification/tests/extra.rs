//! Further concrete checks: the laws on chosen values, each error variant,
//! and exact results of the formulas.

use nextion_tft_toolkit::args::parse_offset;
use nextion_tft_toolkit::error::IntParseError;
use nextion_tft_toolkit::hmi::{
    decode, hex_encode, patch_attr, patch_fits, AttrValue, Component, Decoded, Page, Selector,
    BLOCK_SIZE,
};
use nextion_tft_toolkit::html::rgb565_to_css;
use nextion_tft_toolkit::layout::{HmiAttrType, TftTextPool};
use nextion_tft_toolkit::spec::{compile_panics, ComponentSpec, UiSpec};
use nextion_tft_toolkit::target::Target;
use nextion_tft_toolkit::tft::{find_record_panics, patch_geom_panics};
use nextion_tft_toolkit::zi::{pack_pixels, unpack_pixels, FontFile, Glyph};
use nextion_tft_toolkit::{HmiError, ZiError};

// ---------------------------------------------------------------------------
// .zi pixels
// ---------------------------------------------------------------------------

#[test]
fn unpack_empty_data_is_empty() {
    assert_eq!(unpack_pixels(&[]).unwrap(), Vec::<u8>::new());
}

#[test]
fn unpack_rejects_unknown_scheme() {
    assert_eq!(unpack_pixels(&[2, 0x05]), Err(ZiError::UnknownPackingScheme(2)));
}

#[test]
fn unpack_bilevel_opcodes() {
    // 00 f=1 n=5: five full pixels.
    assert_eq!(unpack_pixels(&[1, 0x25]).unwrap(), vec![7; 5]);
    // 01 f=0 n=2: two blanks then one full.
    assert_eq!(unpack_pixels(&[1, 0x42]).unwrap(), vec![0, 0, 7]);
    // 10 f=0 n=1: one blank then three full.
    assert_eq!(unpack_pixels(&[1, 0x81]).unwrap(), vec![0, 7, 7, 7]);
    // 11 aaa=3 bbb=2: three blanks then two full.
    assert_eq!(unpack_pixels(&[1, 0xDA]).unwrap(), vec![0, 0, 0, 7, 7]);
}

#[test]
fn unpack_grey3_opcodes() {
    // 10 aaa=3 bbb=5: three blanks then level 5.
    assert_eq!(unpack_pixels(&[3, 0x9D]).unwrap(), vec![0, 0, 0, 5]);
    // 11 aaa=0 bbb=5: the two levels 0 and 5.
    assert_eq!(unpack_pixels(&[3, 0xC5]).unwrap(), vec![0, 5]);
    // 01 f=1 n=0: two full pixels.
    assert_eq!(unpack_pixels(&[3, 0x60]).unwrap(), vec![7, 7]);
}

#[test]
fn pack_starts_with_grey3_scheme_and_roundtrips_small_runs() {
    for px in [vec![], vec![0], vec![7], vec![3, 4, 5, 6, 1, 2], vec![0, 0, 0, 0, 7]] {
        let packed = pack_pixels(&px);
        assert_eq!(packed[0], 3);
        assert_eq!(unpack_pixels(&packed).unwrap(), px);
    }
}

#[test]
fn pack_long_runs_roundtrip() {
    let mut px = vec![7u8; 100];
    px.extend(vec![0u8; 100]);
    px.extend(vec![5u8; 3]);
    assert_eq!(unpack_pixels(&pack_pixels(&px)).unwrap(), px);
}

// ---------------------------------------------------------------------------
// .zi container
// ---------------------------------------------------------------------------

/// A font with one glyph `A` of ink width 2 and height 2, pixels 7,0,0,7.
fn one_glyph_font(scale_flag: u8, packed: &[u8]) -> Vec<u8> {
    let label = b"Arial";
    let mut h = vec![0u8; 44];
    h[0] = 4;
    h[3] = 11;
    h[4] = 3;
    h[5] = 2;
    h[6] = 0;
    h[7] = 2;
    h[12] = 1;
    h[16] = 6;
    h[17] = label.len() as u8;
    h[33] = scale_flag;
    let mut data = h;
    data.extend_from_slice(label);
    let offset: u32 = if scale_flag == 1 { 16 / 8 } else { 10 };
    let mut entry = vec![65, 0, 2, 0, 0];
    entry.extend_from_slice(&offset.to_le_bytes()[..3]);
    entry.extend_from_slice(&(packed.len() as u16).to_le_bytes());
    data.extend_from_slice(&entry);
    if scale_flag == 1 {
        data.extend_from_slice(&[0u8; 6]);
    }
    data.extend_from_slice(packed);
    data
}

#[test]
fn font_parse_reads_header_label_and_glyph() {
    let packed = pack_pixels(&[7, 0, 0, 7]);
    let font = FontFile::parse(&one_glyph_font(0, &packed)).unwrap();
    assert_eq!(font.layout, 11);
    assert_eq!(font.charset_id, 3);
    assert_eq!(font.charset_coverage, 2);
    assert_eq!(font.line_px, 2);
    assert_eq!(font.format_rev, 6);
    assert_eq!(font.label, "Arial");
    assert_eq!(font.glyphs.len(), 1);
    let g = font.find(65).unwrap();
    assert_eq!(g.ink_w, 2);
    assert_eq!(g.cell_w(), 2);
    assert_eq!(g.packed, packed);
    assert_eq!(g.unpack(font.line_px).unwrap(), vec![7, 0, 0, 7]);
    assert!(font.find(66).is_none());
}

#[test]
fn font_parse_scales_offsets_by_eight_when_flagged() {
    let packed = pack_pixels(&[7, 0, 0, 7]);
    let font = FontFile::parse(&one_glyph_font(1, &packed)).unwrap();
    assert_eq!(font.glyphs[0].packed, packed);
}

#[test]
fn font_parse_rejects_short_file() {
    assert_eq!(FontFile::parse(&[4u8; 43]), Err(ZiError::Truncated));
}

#[test]
fn font_parse_rejects_bad_magic() {
    let mut data = one_glyph_font(0, &[3, 0x24]);
    data[0] = 5;
    assert_eq!(FontFile::parse(&data), Err(ZiError::BadMagic(5)));
}

#[test]
fn font_parse_rejects_truncated_glyph_table() {
    let mut data = one_glyph_font(0, &[3, 0x24]);
    data[12] = 200;
    assert_eq!(FontFile::parse(&data), Err(ZiError::Truncated));
}

#[test]
fn font_parse_rejects_glyph_past_end() {
    let data = one_glyph_font(0, &[3, 0x24]);
    let short = data[..data.len() - 1].to_vec();
    assert_eq!(FontFile::parse(&short), Err(ZiError::GlyphOutOfBounds { char_id: 65 }));
}

#[test]
fn glyph_unpack_reports_pixel_count_mismatch() {
    let g = Glyph { char_id: 65, ink_w: 2, pad_left: 1, pad_right: 0, packed: vec![3, 0x24] };
    assert_eq!(
        g.unpack(2),
        Err(ZiError::PixelCountMismatch { char_id: 65, expected: 6, actual: 4 })
    );
}

#[test]
fn glyph_unpack_reports_unknown_scheme() {
    let g = Glyph { char_id: 66, ink_w: 1, pad_left: 0, pad_right: 0, packed: vec![9, 0x21] };
    assert_eq!(g.unpack(1), Err(ZiError::UnknownPackingScheme(9)));
}

// ---------------------------------------------------------------------------
// Colors, attribute types, addresses
// ---------------------------------------------------------------------------

#[test]
fn rgb565_channels_expand_by_bit_replication() {
    assert_eq!(rgb565_to_css(0x07E0), "rgb(0,255,0)");
    assert_eq!(rgb565_to_css(0x001F), "rgb(0,0,255)");
    assert_eq!(rgb565_to_css(0x8410), "rgb(132,130,132)");
    assert_eq!(rgb565_to_css(0x049f), "rgb(0,146,255)");
}

#[test]
fn attr_type_bytes_roundtrip() {
    for b in [0x11u8, 0x12] {
        assert_eq!(HmiAttrType::from_byte(b).unwrap().to_byte(), b);
    }
    assert!(HmiAttrType::from_byte(0x13).is_none());
    assert!(HmiAttrType::from_byte(0x00).is_none());
}

#[test]
fn text_slot_address_adds_pointer_to_base() {
    assert_eq!(TftTextPool::slot_address(0xC000, 0x68), 0xC068);
}

#[test]
fn target_display_and_model_name() {
    let t = Target::Nx8048p050011rY;
    assert_eq!(t.model_name(), "NX8048P050-011R-Y");
    assert_eq!(t.to_display_string(), "NX8048P050-011R-Y");
    assert_eq!(Target::parse("  nx8048p050011ry ").unwrap(), t);
}

// ---------------------------------------------------------------------------
// Offsets and hex
// ---------------------------------------------------------------------------

#[test]
fn parse_offset_reads_hex_and_decimal() {
    assert_eq!(parse_offset("0xc0ef4"), Ok(0xc0ef4));
    assert_eq!(parse_offset("0X1F"), Ok(31));
    assert_eq!(parse_offset("1234"), Ok(1234));
    assert_eq!(parse_offset("+7"), Ok(7));
}

#[test]
fn parse_offset_errors() {
    assert_eq!(parse_offset(""), Err(IntParseError::Empty));
    assert_eq!(parse_offset("0x"), Err(IntParseError::Empty));
    assert_eq!(parse_offset("12a"), Err(IntParseError::InvalidDigit));
    assert_eq!(parse_offset("0xg"), Err(IntParseError::InvalidDigit));
    assert_eq!(
        parse_offset("99999999999999999999999"),
        Err(IntParseError::Overflow)
    );
}

#[test]
fn hex_encode_is_lowercase_two_digits_per_byte() {
    assert_eq!(hex_encode(&[0x00, 0x0a, 0xff, 0x49]), "000aff49");
    assert_eq!(hex_encode(&[]), "");
}

#[test]
fn attr_value_kind_and_display() {
    assert_eq!(AttrValue::Str("ab".to_string()).kind(), "str");
    assert_eq!(AttrValue::Int(5).kind(), "int");
    assert_eq!(AttrValue::Blob(vec![1]).kind(), "blob");
    assert_eq!(AttrValue::Raw(vec![1]).kind(), "raw");
    assert_eq!(AttrValue::UnknownPad(vec![1]).kind(), "unknown-pad");
    assert_eq!(AttrValue::Other(0x2a, vec![1]).kind(), "t0x2a");
    assert_eq!(AttrValue::Str("ab".to_string()).to_display_string(), "ab");
    assert_eq!(AttrValue::Int(4096).to_display_string(), "4096");
    assert_eq!(AttrValue::Other(0x2a, vec![0xbe, 0xef]).to_display_string(), "beef");
}

// ---------------------------------------------------------------------------
// Selectors and patches
// ---------------------------------------------------------------------------

#[test]
fn selector_parse_leaves_empty_parts_unset() {
    let (sel, v) = Selector::parse(":textGear:x=0x10").unwrap();
    assert_eq!(sel.page, None);
    assert_eq!(sel.objname, Some("textGear".to_string()));
    assert_eq!(sel.attr, "x");
    assert_eq!(v, "0x10");
    let (sel, v) = Selector::parse("page1::txt=a=b").unwrap();
    assert_eq!(sel.page, Some("page1".to_string()));
    assert_eq!(sel.objname, None);
    assert_eq!(v, "a=b");
    let (sel, _) = Selector::parse("p:o:a:b=1").unwrap();
    assert_eq!(sel.attr, "a:b");
}

fn record(name: &str, value: &[u8], type_byte: u8) -> Vec<u8> {
    let mut buf = vec![0u8; 16];
    buf[..name.len()].copy_from_slice(name.as_bytes());
    buf.extend_from_slice(value);
    buf.push(type_byte);
    buf.extend_from_slice(&[0, 0, 0]);
    buf
}

fn small_hmi() -> Vec<u8> {
    let mut data = vec![0u8; BLOCK_SIZE * 2];
    data.extend(record("type", b"y", 0x11));
    data.extend(record("objname", b"page1", 0x11));
    data.extend(record("type", b"t", 0x11));
    data.extend(record("objname", b"t0", 0x11));
    data.extend(record("x", &[5, 0], 0x12));
    data.extend(record("pic", &[1, 2], 0x13));
    data.extend(record("txt", b"hey", 0x11));
    data.extend(record("_pad", &[0, 0], 0x12));
    data.extend_from_slice(&[0xFFu8; 1200]);
    data
}

#[test]
fn patch_int_accepts_hex_octal_and_binary_literals() {
    let mut data = small_hmi();
    let decoded = decode(&data).unwrap();
    let (sel, _) = Selector::parse("page1:t0:x=0x10").unwrap();
    patch_attr(&mut data, &decoded, &sel, "0x10").unwrap();
    patch_attr(&mut data, &decoded, &sel, " 0o17 ").unwrap();
    let again = decode(&data).unwrap();
    let x = again.pages[0].components[0].attrs.iter().find(|a| a.name == "x").unwrap();
    assert_eq!(x.value, AttrValue::Int(15));
    patch_attr(&mut data, &decoded, &sel, "0b101").unwrap();
    let again = decode(&data).unwrap();
    let x = again.pages[0].components[0].attrs.iter().find(|a| a.name == "x").unwrap();
    assert_eq!(x.value, AttrValue::Int(5));
}

#[test]
fn patch_int_rejects_non_numbers() {
    let mut data = small_hmi();
    let decoded = decode(&data).unwrap();
    let (sel, _) = Selector::parse("page1:t0:x=ten").unwrap();
    let err = patch_attr(&mut data, &decoded, &sel, "ten").unwrap_err();
    assert!(matches!(err, HmiError::InvalidInt(_, IntParseError::InvalidDigit)));
}

#[test]
fn patch_refuses_blob_attributes() {
    let mut data = small_hmi();
    let before = data.clone();
    let decoded = decode(&data).unwrap();
    let (sel, _) = Selector::parse(":t0:pic=1").unwrap();
    let err = patch_attr(&mut data, &decoded, &sel, "1").unwrap_err();
    assert!(matches!(err, HmiError::UnsupportedPatchKind { .. }));
    assert_eq!(data, before);
}

#[test]
fn patch_then_decode_reads_back_the_new_text() {
    let mut data = small_hmi();
    let decoded = decode(&data).unwrap();
    let (sel, v) = Selector::parse("page1:t0:txt=bye").unwrap();
    patch_attr(&mut data, &decoded, &sel, &v).unwrap();
    let again = decode(&data).unwrap();
    let txt = again.pages[0].components[0].attrs.iter().find(|a| a.name == "txt").unwrap();
    assert_eq!(txt.value, AttrValue::Str("bye".to_string()));
}

#[test]
fn selector_without_objname_matches_only_page_attributes() {
    let mut data = small_hmi();
    let decoded = decode(&data).unwrap();
    let (sel, _) = Selector::parse("::txt=bye").unwrap();
    let err = patch_attr(&mut data, &decoded, &sel, "bye").unwrap_err();
    assert!(matches!(err, HmiError::AttrNotFound { .. }));
}

// ---------------------------------------------------------------------------
// Inputs on which a patch cannot run
// ---------------------------------------------------------------------------

fn quad(x: u16, y: u16, w: u16, h: u16) -> Vec<u8> {
    let mut v = Vec::new();
    for c in [x, y, w, h] {
        v.extend_from_slice(&c.to_le_bytes());
    }
    v
}

#[test]
fn patch_geom_panics_only_where_the_write_cannot_happen() {
    let mut data = vec![0u8; 16];
    data.extend(quad(1, 2, 3, 4));
    data.extend([0u8; 4]);
    // Room for endx/endy, and the new ends fit.
    assert!(!patch_geom_panics(&data, (1, 2, 3, 4), (5, 6, 7, 8), None));
    // The new x + w is past 65535.
    assert!(patch_geom_panics(&data, (1, 2, 3, 4), (65535, 6, 7, 8), None));
    // The new x + w is 0.
    assert!(patch_geom_panics(&data, (1, 2, 3, 4), (0, 6, 0, 8), None));
    // No match: the search fails before anything is written.
    assert!(!patch_geom_panics(&data, (9, 9, 9, 9), (65535, 6, 7, 8), None));
    // The quad is the last thing in the file.
    data.truncate(24);
    assert!(patch_geom_panics(&data, (1, 2, 3, 4), (5, 6, 7, 8), None));
    assert!(!patch_geom_panics(&data, (1, 2, 3, 4), (5, 6, 7, 8), Some(3)));
}

#[test]
fn find_record_panics_when_the_record_would_start_before_the_file() {
    let mut data = vec![0u8; 4];
    data.extend(quad(1, 2, 3, 4));
    data.extend([0u8; 100]);
    assert!(find_record_panics(&data, (1, 2, 3, 4)));
    let mut later = vec![0u8; 16];
    later.extend(quad(1, 2, 3, 4));
    assert!(!find_record_panics(&later, (1, 2, 3, 4)));
}

#[test]
fn patch_writes_integers_wider_than_eight_bytes_zero_extended() {
    let mut data = vec![0u8; BLOCK_SIZE * 2];
    data.extend(record("type", b"y", 0x11));
    data.extend(record("objname", b"page1", 0x11));
    data.extend(record("type", b"t", 0x11));
    data.extend(record("objname", b"t0", 0x11));
    data.extend(record("big", &[9, 9, 9, 9, 9, 9, 9, 9, 9, 9], 0x12));
    data.extend(record("x", &[5, 0], 0x12));
    data.extend_from_slice(&[0xFFu8; 1200]);
    let before = data.clone();
    let decoded = decode(&data).unwrap();
    let (big, _) = Selector::parse("page1:t0:big=0x0102").unwrap();
    assert!(patch_fits(data.len(), &decoded, &big, "0x0102"));
    patch_attr(&mut data, &decoded, &big, "0x0102").unwrap();
    let rec = decoded.pages[0].components[0].attrs.iter().find(|a| a.name == "big").unwrap();
    let off = rec.file_offset + 16;
    assert_eq!(rec.value_len, 10);
    assert_eq!(&data[off..off + 10], &[2, 1, 0, 0, 0, 0, 0, 0, 0, 0]);
    assert_eq!(&data[..off], &before[..off]);
    assert_eq!(&data[off + 10..], &before[off + 10..]);
    let again = decode(&data).unwrap();
    let big2 = again.pages[0].components[0].attrs.iter().find(|a| a.name == "big").unwrap();
    assert_eq!(big2.value, AttrValue::Int(0x0102));
    let (x, _) = Selector::parse("page1:t0:x=1").unwrap();
    assert!(patch_fits(data.len(), &decoded, &x, "1"));
}

#[test]
fn selector_text_with_value_gives_back_the_argument() {
    let (sel, v) = Selector::parse("a:b:c:d=x").unwrap();
    assert_eq!(sel.page, Some("a".to_string()));
    assert_eq!(sel.objname, Some("b".to_string()));
    assert_eq!(sel.attr, "c:d");
    assert_eq!(v, "x");
}

fn text_scaffold() -> (Decoded, Vec<u8>) {
    let attr = |name: &str, value: AttrValue| nextion_tft_toolkit::hmi::AttrRecord {
        file_offset: 0,
        name: name.to_string(),
        value,
        value_len: 0,
    };
    let comp = Component {
        file_offset: 0,
        objname: Some("textGear".to_string()),
        attrs: vec![
            attr("type", AttrValue::Str("t".to_string())),
            attr("objname", AttrValue::Str("textGear".to_string())),
            attr("x", AttrValue::Int(72)),
            attr("y", AttrValue::Int(22)),
            attr("w", AttrValue::Int(180)),
            attr("h", AttrValue::Int(60)),
        ],
    };
    let decoded = Decoded {
        payload_start: 0,
        pages: vec![Page { objname: Some("page1".to_string()), attrs: vec![], components: vec![comp] }],
    };
    let mut data = vec![0u8; 64];
    data[2] = 0x44;
    data[3] = 0x4e;
    data[0x0C..0x0E].copy_from_slice(&800u16.to_le_bytes());
    data[0x0E..0x10].copy_from_slice(&480u16.to_le_bytes());
    let mut rec = vec![0u8; 84];
    rec[0x10..0x18].copy_from_slice(&quad(72, 22, 180, 60));
    data.extend(rec);
    let total = data.len() as u32;
    data[0x3C..0x40].copy_from_slice(&total.to_le_bytes());
    (decoded, data)
}

#[test]
fn compile_panics_on_a_geometry_overflow_only() {
    let (decoded, data) = text_scaffold();
    let spec = |x: u16| UiSpec {
        target: "NX8048P050-011R-Y".to_string(),
        page: "page1".to_string(),
        components: vec![ComponentSpec {
            objname: "textGear".to_string(),
            x: Some(x),
            ..Default::default()
        }],
    };
    assert!(compile_panics(&spec(65500), &decoded, &data));
    assert!(!compile_panics(&spec(90), &decoded, &data));
}

#[test]
fn compile_refuses_font_on_hotspot_before_searching() {
    let (mut decoded, data) = text_scaffold();
    decoded.pages[0].components[0].attrs[0].value = AttrValue::Str("m".to_string());
    // Move the quad so no record matches: the refusal must still come first.
    let mut data = data;
    data[64 + 0x10] = 0xEE;
    let before = data.clone();
    let spec = UiSpec {
        target: "NX8048P050-011R-Y".to_string(),
        page: "page1".to_string(),
        components: vec![ComponentSpec {
            objname: "textGear".to_string(),
            font: Some(3),
            ..Default::default()
        }],
    };
    let err = nextion_tft_toolkit::spec::compile(&spec, &decoded, &mut data, Target::Nx8048p050011rY)
        .unwrap_err();
    match err {
        nextion_tft_toolkit::SpecError::ColorFontUnsupportedForType { field, component_type, .. } => {
            assert_eq!(field, "font");
            assert_eq!(component_type, "m");
        }
        other => panic!("unexpected {other:?}"),
    }
    assert_eq!(data, before);
}

#[test]
fn compile_is_a_noop_for_a_component_that_sets_nothing() {
    let (decoded, data) = text_scaffold();
    let mut data = data;
    let before = data.clone();
    let spec = UiSpec {
        target: "NX8048P050-011R-Y".to_string(),
        page: "page1".to_string(),
        components: vec![ComponentSpec { objname: "textGear".to_string(), ..Default::default() }],
    };
    let changes =
        nextion_tft_toolkit::spec::compile(&spec, &decoded, &mut data, Target::Nx8048p050011rY).unwrap();
    assert!(changes.is_empty());
    assert_eq!(data, before);
}

#[test]
fn unknown_target_message_quotes_the_name_as_debug_does() {
    let err = Target::parse(" ab\u{7}\"x ").unwrap_err();
    assert_eq!(err.0, "AB\u{7}\"X");
    assert_eq!(
        err.message(),
        format!(
            "unsupported target {:?}: this toolkit only supports NX8048P050-011R-Y (see docs/targets.md for what it would take to add another)",
            "AB\u{7}\"X"
        )
    );
    assert!(err.message().contains("\"AB\\u{7}\\\"X\""));
}
