use nextion_tft_toolkit::zi::{pack_pixels, unpack_pixels};

#[test]
fn roundtrip_all_levels() {
    let mut px: Vec<u8> = (0..400).map(|i| ((i * 7 + i / 13) % 8) as u8).collect();
    px.extend([0; 70]);
    px.extend([7; 70]);
    px.extend([0, 0, 7, 0, 7, 7, 7, 3]);
    assert_eq!(unpack_pixels(&pack_pixels(&px)).unwrap(), px);
}
