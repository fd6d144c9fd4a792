use nextion_tft_toolkit::target::Target;

#[test]
fn parses_canonical_name() {
    assert_eq!(
        "NX8048P050-011R-Y".parse::<Target>().unwrap(),
        Target::Nx8048p050011rY
    );
}

#[test]
fn parses_case_insensitively() {
    assert_eq!(
        "nx8048p050-011r-y".parse::<Target>().unwrap(),
        Target::Nx8048p050011rY
    );
}

#[test]
fn rejects_unknown_target() {
    let err = "NX4832K035".parse::<Target>().unwrap_err();
    assert!(err.message().contains("unsupported target"));
}

#[test]
fn dimensions_match_reference_file() {
    assert_eq!(Target::Nx8048p050011rY.width(), 800);
    assert_eq!(Target::Nx8048p050011rY.height(), 480);
}
