use nextion_tft_toolkit::hmi::{AttrRecord, AttrValue, Component, Decoded, Page};
use nextion_tft_toolkit::spec::{compile, ComponentSpec, UiSpec};
use nextion_tft_toolkit::target::Target;
use nextion_tft_toolkit::tft;
use nextion_tft_toolkit::tft::text_record_offset as o;
use nextion_tft_toolkit::tft::button_record_offset as bo;
use nextion_tft_toolkit::SpecError;

fn make_attr(name: &str, value: AttrValue) -> AttrRecord {
    AttrRecord {
        file_offset: 0,
        name: name.to_string(),
        value,
        value_len: 0,
    }
}

fn make_scaffold() -> Decoded {
    let comp = Component {
        file_offset: 0,
        objname: Some("textGear".to_string()),
        attrs: vec![
            make_attr("type", AttrValue::Str("t".to_string())),
            make_attr("objname", AttrValue::Str("textGear".to_string())),
            make_attr("x", AttrValue::Int(72)),
            make_attr("y", AttrValue::Int(22)),
            make_attr("w", AttrValue::Int(180)),
            make_attr("h", AttrValue::Int(60)),
            make_attr("txt", AttrValue::Str("OFF".to_string())),
        ],
    };
    Decoded {
        payload_start: 0,
        pages: vec![Page {
            objname: Some("page1".to_string()),
            attrs: vec![],
            components: vec![comp],
        }],
    }
}

fn make_tft_bytes() -> Vec<u8> {
    let mut header = vec![0u8; tft::HEADER_LEN];
    header[0] = 0x00;
    header[1] = 0x01;
    header[tft::MAGIC_OFFSET] = tft::MAGIC[0];
    header[tft::MAGIC_OFFSET + 1] = tft::MAGIC[1];
    header[tft::WIDTH_OFFSET..tft::WIDTH_OFFSET + 2].copy_from_slice(&800u16.to_le_bytes());
    header[tft::HEIGHT_OFFSET..tft::HEIGHT_OFFSET + 2].copy_from_slice(&480u16.to_le_bytes());

    let mut rec = vec![0u8; tft::TEXT_RECORD_LEN];
    rec[o::X..o::X + 2].copy_from_slice(&72u16.to_le_bytes());
    rec[o::Y..o::Y + 2].copy_from_slice(&22u16.to_le_bytes());
    rec[o::W..o::W + 2].copy_from_slice(&180u16.to_le_bytes());
    rec[o::H..o::H + 2].copy_from_slice(&60u16.to_le_bytes());
    rec[o::ENDX..o::ENDX + 2].copy_from_slice(&251u16.to_le_bytes());
    rec[o::ENDY..o::ENDY + 2].copy_from_slice(&81u16.to_le_bytes());
    rec[o::PCO..o::PCO + 2].copy_from_slice(&0xffffu16.to_le_bytes());
    rec[o::FONT] = 2;

    let mut text_pool = vec![0u8; tft::TEXT_SLOT_LEN];
    text_pool[..3].copy_from_slice(b"OFF");

    let mut data = header;
    data.extend_from_slice(&rec);
    data.extend_from_slice(&text_pool);

    let total = data.len() as u32;
    data[tft::TOTAL_SIZE_OFFSET..tft::TOTAL_SIZE_OFFSET + 4]
        .copy_from_slice(&total.to_le_bytes());
    data
}

fn data_at(data: &[u8], off: usize) -> u8 {
    data[off]
}

#[test]
fn compile_patches_text_when_changed() {
    let scaffold = make_scaffold();
    let mut tft_data = make_tft_bytes();
    let spec = UiSpec {
        target: "NX8048P050-011R-Y".to_string(),
        page: "page1".to_string(),
        components: vec![ComponentSpec {
            objname: "textGear".to_string(),
            x: None,
            y: None,
            w: None,
            h: None,
            txt: Some("ON!".to_string()),
            pco: None,
            font: None,
            ..Default::default()
        }],
    };

    let changes = compile(&spec, &scaffold, &mut tft_data, Target::Nx8048p050011rY).unwrap();
    assert_eq!(changes.len(), 1);
    assert_eq!(changes[0].field, "txt");

    let rec_start = tft::HEADER_LEN;
    let text_pool_start = rec_start + tft::TEXT_RECORD_LEN;
    assert_eq!(&tft_data[text_pool_start..text_pool_start + 3], b"ON!");
}

#[test]
fn compile_patches_geometry_when_changed() {
    let scaffold = make_scaffold();
    let mut tft_data = make_tft_bytes();
    let spec = UiSpec {
        target: "NX8048P050-011R-Y".to_string(),
        page: "page1".to_string(),
        components: vec![ComponentSpec {
            objname: "textGear".to_string(),
            x: Some(100),
            y: None,
            w: None,
            h: None,
            txt: None,
            pco: None,
            font: None,
            ..Default::default()
        }],
    };

    let changes = compile(&spec, &scaffold, &mut tft_data, Target::Nx8048p050011rY).unwrap();
    assert_eq!(changes.len(), 1);
    assert_eq!(changes[0].field, "geometry");

    let rec_start = tft::HEADER_LEN;
    let new_x = u16::from_le_bytes([
        data_at(&tft_data, rec_start + o::X),
        data_at(&tft_data, rec_start + o::X + 1),
    ]);
    assert_eq!(new_x, 100);
}

#[test]
fn compile_patches_color_and_font_for_text_component() {
    let scaffold = make_scaffold();
    let mut tft_data = make_tft_bytes();
    let spec = UiSpec {
        target: "NX8048P050-011R-Y".to_string(),
        page: "page1".to_string(),
        components: vec![ComponentSpec {
            objname: "textGear".to_string(),
            x: None,
            y: None,
            w: None,
            h: None,
            txt: None,
            pco: Some(0x049f),
            font: Some(5),
            ..Default::default()
        }],
    };

    let changes = compile(&spec, &scaffold, &mut tft_data, Target::Nx8048p050011rY).unwrap();
    assert_eq!(changes.len(), 2);

    let rec_start = tft::HEADER_LEN;
    let pco = u16::from_le_bytes([
        tft_data[rec_start + o::PCO],
        tft_data[rec_start + o::PCO + 1],
    ]);
    assert_eq!(pco, 0x049f);
    assert_eq!(tft_data[rec_start + o::FONT], 5);
}

#[test]
fn compile_refuses_color_font_on_non_text_component() {
    let mut scaffold = make_scaffold();
    scaffold.pages[0].components[0].attrs[0] =
        make_attr("type", AttrValue::Str("b".to_string()));
    let mut tft_data = make_tft_bytes();
    let spec = UiSpec {
        target: "NX8048P050-011R-Y".to_string(),
        page: "page1".to_string(),
        components: vec![ComponentSpec {
            objname: "textGear".to_string(),
            x: None,
            y: None,
            w: None,
            h: None,
            txt: None,
            pco: Some(0x049f),
            font: None,
            ..Default::default()
        }],
    };

    let err = compile(&spec, &scaffold, &mut tft_data, Target::Nx8048p050011rY).unwrap_err();
    assert!(matches!(err, SpecError::ColorFontUnsupportedForType { .. }));
}

#[test]
fn compile_patches_button_bco_bco2_and_font() {
    let mut scaffold = make_scaffold();
    scaffold.pages[0].components[0].attrs[0] =
        make_attr("type", AttrValue::Str("b".to_string()));
    let mut tft_data = make_tft_bytes();
    let spec = UiSpec {
        target: "NX8048P050-011R-Y".to_string(),
        page: "page1".to_string(),
        components: vec![ComponentSpec {
            objname: "textGear".to_string(),
            bco: Some(0xf800),
            bco2: Some(0x0c80),
            font: Some(1),
            ..Default::default()
        }],
    };

    let changes = compile(&spec, &scaffold, &mut tft_data, Target::Nx8048p050011rY).unwrap();
    assert_eq!(changes.len(), 3);

    let rec_start = tft::HEADER_LEN;
    let bco = u16::from_le_bytes([
        tft_data[rec_start + bo::BCO],
        tft_data[rec_start + bo::BCO + 1],
    ]);
    let bco2 = u16::from_le_bytes([
        tft_data[rec_start + bo::BCO2],
        tft_data[rec_start + bo::BCO2 + 1],
    ]);
    assert_eq!(bco, 0xf800);
    assert_eq!(bco2, 0x0c80);
    assert_eq!(tft_data[rec_start + bo::FONT], 1);
}

#[test]
fn compile_refuses_bco_on_text_component() {
    let scaffold = make_scaffold();
    let mut tft_data = make_tft_bytes();
    let spec = UiSpec {
        target: "NX8048P050-011R-Y".to_string(),
        page: "page1".to_string(),
        components: vec![ComponentSpec {
            objname: "textGear".to_string(),
            bco: Some(0xf800),
            ..Default::default()
        }],
    };

    let err = compile(&spec, &scaffold, &mut tft_data, Target::Nx8048p050011rY).unwrap_err();
    assert!(matches!(err, SpecError::ColorFontUnsupportedForType { .. }));
}

#[test]
fn compile_errors_when_spec_component_missing_from_scaffold() {
    let scaffold = make_scaffold();
    let mut tft_data = make_tft_bytes();
    let spec = UiSpec {
        target: "NX8048P050-011R-Y".to_string(),
        page: "page1".to_string(),
        components: vec![ComponentSpec {
            objname: "doesNotExist".to_string(),
            x: None,
            y: None,
            w: None,
            h: None,
            txt: Some("hi".to_string()),
            pco: None,
            font: None,
            ..Default::default()
        }],
    };

    let err = compile(&spec, &scaffold, &mut tft_data, Target::Nx8048p050011rY).unwrap_err();
    assert!(matches!(err, SpecError::ComponentNotInScaffold { .. }));
}

#[test]
fn compile_is_a_noop_when_spec_matches_scaffold_exactly() {
    let scaffold = make_scaffold();
    let mut tft_data = make_tft_bytes();
    let before = tft_data.clone();
    let spec = UiSpec {
        target: "NX8048P050-011R-Y".to_string(),
        page: "page1".to_string(),
        components: vec![ComponentSpec {
            objname: "textGear".to_string(),
            x: Some(72),
            y: Some(22),
            w: Some(180),
            h: Some(60),
            txt: Some("OFF".to_string()),
            pco: None,
            font: None,
            ..Default::default()
        }],
    };

    let changes = compile(&spec, &scaffold, &mut tft_data, Target::Nx8048p050011rY).unwrap();
    assert!(changes.is_empty());
    assert_eq!(tft_data, before);
}
