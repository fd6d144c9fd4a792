use nextion_tft_toolkit::hmi::{
    decode, decode_tail, find_payload_start, is_name_at, patch_attr, AttrValue, Selector,
    BLOCK_SIZE,
};
use nextion_tft_toolkit::HmiError;

const NAME_LEN: usize = 16;
const PAD_BYTES: [u8; 3] = [0x00, 0x00, 0x00];

/// Builds one raw attribute record: `name(16) + value + type + pad(3)`.
fn attr_record(name: &str, value: &[u8], type_byte: u8) -> Vec<u8> {
    let mut buf = vec![0u8; NAME_LEN];
    buf[..name.len()].copy_from_slice(name.as_bytes());
    buf.extend_from_slice(value);
    buf.push(type_byte);
    buf.extend_from_slice(&PAD_BYTES);
    buf
}

fn str_attr(name: &str, s: &str) -> Vec<u8> {
    attr_record(name, s.as_bytes(), 0x11)
}

fn int_attr(name: &str, value: u64, width: usize) -> Vec<u8> {
    let bytes = value.to_le_bytes();
    attr_record(name, &bytes[..width], 0x12)
}

fn wrap_in_payload(records: Vec<Vec<u8>>) -> Vec<u8> {
    let mut payload = Vec::new();
    for r in records {
        payload.extend_from_slice(&r);
    }
    payload
}

fn wrap_in_file(payload: Vec<u8>) -> Vec<u8> {
    let mut data = vec![0u8; BLOCK_SIZE * 2];
    data.extend_from_slice(&payload);
    data.extend_from_slice(&[0xFFu8; 1200]);
    data
}

fn synthetic_page() -> Vec<u8> {
    wrap_in_payload(vec![
        str_attr("type", "y"),
        str_attr("objname", "page1"),
        int_attr("x", 0, 2),
        int_attr("y", 0, 2),
        str_attr("type", "t"),
        str_attr("objname", "textGear"),
        int_attr("id", 2, 1),
        int_attr("x", 72, 2),
        int_attr("y", 22, 2),
        str_attr("txt", "OFF"),
        str_attr("type", "b"),
        str_attr("objname", "bOff"),
        int_attr("id", 3, 1),
    ])
}

#[test]
fn is_name_at_reads_nul_padded_ascii_name() {
    let payload = str_attr("objname", "bOff");
    assert_eq!(is_name_at(&payload, 0), Some("objname".to_string()));
}

#[test]
fn is_name_at_rejects_partial_non_nul_tail() {
    let mut window = vec![0u8; 16];
    window[0] = b'a';
    window[1] = b'b';
    window[5] = 1;
    assert_eq!(is_name_at(&window, 0), None);
}

#[test]
fn is_name_at_rejects_out_of_bounds() {
    let payload = vec![b'a'; 10];
    assert_eq!(is_name_at(&payload, 0), None);
}

#[test]
fn decode_tail_parses_string_type() {
    let tail = {
        let mut t = b"OFF".to_vec();
        t.push(0x11);
        t.extend_from_slice(&PAD_BYTES);
        t
    };
    let (val, len) = decode_tail(&tail, "txt");
    assert_eq!(val, AttrValue::Str("OFF".to_string()));
    assert_eq!(len, 3);
}

#[test]
fn decode_tail_parses_int_type() {
    let tail = {
        let mut t = 800u16.to_le_bytes().to_vec();
        t.push(0x12);
        t.extend_from_slice(&PAD_BYTES);
        t
    };
    let (val, len) = decode_tail(&tail, "w");
    assert_eq!(val, AttrValue::Int(800));
    assert_eq!(len, 2);
}

#[test]
fn decode_tail_special_cases_txt_as_string_even_with_int_type_byte() {
    let tail = {
        let mut t = b"THREAD".to_vec();
        t.push(0x12);
        t.extend_from_slice(&PAD_BYTES);
        t
    };
    let (val, _) = decode_tail(&tail, "txt");
    assert_eq!(val, AttrValue::Str("THREAD".to_string()));
}

#[test]
fn decode_tail_flags_bad_padding() {
    let tail = vec![1, 2, 0x11, 0xFF, 0x00, 0x00];
    let (val, _) = decode_tail(&tail, "x");
    assert!(matches!(val, AttrValue::UnknownPad(_)));
}

#[test]
fn decode_tail_flags_short_tail_as_raw() {
    let tail = vec![0x11, 0x00];
    let (val, _) = decode_tail(&tail, "x");
    assert!(matches!(val, AttrValue::Raw(_)));
}

#[test]
fn decode_tail_reports_unknown_type_byte() {
    let tail = vec![1, 2, 0x99, 0x00, 0x00, 0x00];
    let (val, _) = decode_tail(&tail, "pic");
    assert!(matches!(val, AttrValue::Other(0x99, _)));
}

#[test]
fn decode_finds_page_and_components_with_objnames() {
    let payload = synthetic_page();
    let data = wrap_in_file(payload);
    let decoded = decode(&data).expect("decode should succeed");

    assert_eq!(decoded.pages.len(), 1);
    let page = &decoded.pages[0];
    assert_eq!(page.objname, Some("page1".to_string()));
    assert_eq!(page.components.len(), 2);
    assert_eq!(page.components[0].objname, Some("textGear".to_string()));
    assert_eq!(page.components[1].objname, Some("bOff".to_string()));
}

#[test]
fn decode_handles_missing_page_container_as_implicit_page() {
    let payload = wrap_in_payload(vec![
        str_attr("type", "t"),
        str_attr("objname", "t3"),
        int_attr("id", 2, 1),
    ]);
    let data = wrap_in_file(payload);
    let decoded = decode(&data).expect("decode should succeed");

    assert_eq!(decoded.pages.len(), 1);
    assert_eq!(decoded.pages[0].objname, None);
    assert_eq!(decoded.pages[0].components.len(), 1);
    assert_eq!(
        decoded.pages[0].components[0].objname,
        Some("t3".to_string())
    );
}

#[test]
fn find_payload_start_skips_mirrored_directory_and_zero_blocks() {
    let payload = synthetic_page();
    let data = wrap_in_file(payload);
    assert_eq!(find_payload_start(&data).unwrap(), BLOCK_SIZE * 2);
}

#[test]
fn find_payload_start_errors_when_all_zero() {
    let data = vec![0u8; BLOCK_SIZE * 4];
    assert!(matches!(
        find_payload_start(&data),
        Err(HmiError::PayloadNotFound)
    ));
}

#[test]
fn patch_string_attribute_same_length_succeeds() {
    let payload = synthetic_page();
    let mut data = wrap_in_file(payload);
    let decoded = decode(&data).expect("decode should succeed");

    let (sel, _) = Selector::parse("page1:textGear:txt=ON!").unwrap();
    patch_attr(&mut data, &decoded, &sel, "ON!").expect("same-length patch should succeed");

    let redecoded = decode(&data).unwrap();
    let comp = &redecoded.pages[0].components[0];
    let txt = comp.attrs.iter().find(|a| a.name == "txt").unwrap();
    assert_eq!(txt.value, AttrValue::Str("ON!".to_string()));
}

#[test]
fn patch_string_attribute_rejects_length_mismatch() {
    let payload = synthetic_page();
    let mut data = wrap_in_file(payload);
    let decoded = decode(&data).expect("decode should succeed");

    let (sel, _) = Selector::parse("page1:textGear:txt=LONGER").unwrap();
    let err = patch_attr(&mut data, &decoded, &sel, "LONGER").unwrap_err();
    assert!(matches!(err, HmiError::LengthMismatch { .. }));
}

#[test]
fn patch_int_attribute_within_width_succeeds() {
    let payload = synthetic_page();
    let mut data = wrap_in_file(payload);
    let decoded = decode(&data).expect("decode should succeed");

    let (sel, _) = Selector::parse("page1:textGear:x=100").unwrap();
    patch_attr(&mut data, &decoded, &sel, "100").expect("int patch should succeed");

    let redecoded = decode(&data).unwrap();
    let comp = &redecoded.pages[0].components[0];
    let x = comp.attrs.iter().find(|a| a.name == "x").unwrap();
    assert_eq!(x.value, AttrValue::Int(100));
}

#[test]
fn patch_int_attribute_rejects_value_too_wide() {
    let payload = synthetic_page();
    let mut data = wrap_in_file(payload);
    let decoded = decode(&data).expect("decode should succeed");

    let (sel, _) = Selector::parse("page1:textGear:id=9999").unwrap();
    let err = patch_attr(&mut data, &decoded, &sel, "9999").unwrap_err();
    assert!(matches!(err, HmiError::ValueTooWide { .. }));
}

#[test]
fn patch_errors_when_attribute_not_found() {
    let payload = synthetic_page();
    let mut data = wrap_in_file(payload);
    let decoded = decode(&data).expect("decode should succeed");

    let (sel, _) = Selector::parse("page1:textGear:nope=1").unwrap();
    let err = patch_attr(&mut data, &decoded, &sel, "1").unwrap_err();
    assert!(matches!(err, HmiError::AttrNotFound { .. }));
}

#[test]
fn selector_parse_rejects_malformed_spec() {
    assert!(Selector::parse("no-equals-sign").is_err());
    assert!(Selector::parse("only:two=parts").is_err());
}
