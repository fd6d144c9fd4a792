use nextion_tft_toolkit::html::{render, rgb565_to_css};
use nextion_tft_toolkit::spec::{ComponentSpec, UiSpec};

fn spec_with(components: Vec<ComponentSpec>) -> UiSpec {
    UiSpec {
        target: "NX8048P050-011R-Y".to_string(),
        page: "page0".to_string(),
        components,
    }
}

#[test]
fn rgb565_white_converts_to_255_255_255() {
    assert_eq!(rgb565_to_css(0xffff), "rgb(255,255,255)");
}

#[test]
fn rgb565_black_converts_to_0_0_0() {
    assert_eq!(rgb565_to_css(0x0000), "rgb(0,0,0)");
}

#[test]
fn rgb565_pure_red_converts_correctly() {
    assert_eq!(rgb565_to_css(0xF800), "rgb(255,0,0)");
}

#[test]
fn render_includes_screen_dimensions_for_target() {
    let spec = spec_with(vec![]);
    let html = render(&spec);
    assert!(html.contains("width:800px"));
    assert!(html.contains("height:480px"));
}

#[test]
fn render_places_button_with_position_and_text() {
    let spec = spec_with(vec![ComponentSpec {
        objname: "bOn".to_string(),
        component_type: Some("b".to_string()),
        x: Some(10),
        y: Some(20),
        w: Some(100),
        h: Some(50),
        txt: Some("ON".to_string()),
        ..Default::default()
    }]);
    let html = render(&spec);
    assert!(html.contains("left:10px;top:20px;width:100px;height:50px;"));
    assert!(html.contains(">ON<"));
    assert!(html.contains("comp-b"));
}

#[test]
fn render_applies_background_and_text_color() {
    let spec = spec_with(vec![ComponentSpec {
        objname: "bStop".to_string(),
        component_type: Some("b".to_string()),
        bco: Some(0xF800),
        pco: Some(0xffff),
        txt: Some("STOP".to_string()),
        ..Default::default()
    }]);
    let html = render(&spec);
    assert!(html.contains("background:rgb(255,0,0);"));
    assert!(html.contains("color:rgb(255,255,255);"));
}

#[test]
fn render_shows_hotspot_as_dashed_overlay_with_objname_not_txt() {
    let spec = spec_with(vec![ComponentSpec {
        objname: "touchFace".to_string(),
        component_type: Some("m".to_string()),
        txt: Some("should not appear".to_string()),
        ..Default::default()
    }]);
    let html = render(&spec);
    assert!(html.contains("comp-m"));
    assert!(html.contains(">touchFace<"));
    assert!(!html.contains("should not appear"));
}

#[test]
fn render_escapes_html_special_characters_in_text_and_objname() {
    let spec = spec_with(vec![ComponentSpec {
        objname: "b<script>".to_string(),
        component_type: Some("b".to_string()),
        txt: Some("<b>&\"".to_string()),
        ..Default::default()
    }]);
    let html = render(&spec);
    assert!(!html.contains("<script>"));
    assert!(html.contains("&lt;script&gt;"));
    assert!(html.contains("&lt;b&gt;&amp;&quot;"));
}

#[test]
fn render_defaults_missing_geometry_to_small_visible_box() {
    let spec = spec_with(vec![ComponentSpec {
        objname: "noGeom".to_string(),
        ..Default::default()
    }]);
    let html = render(&spec);
    assert!(html.contains("left:0px;top:0px;width:40px;height:20px;"));
}
