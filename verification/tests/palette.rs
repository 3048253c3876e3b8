use vox_mesh::palette::{parse_emission_milli, Palette, Rgb};
use vox_mesh::vox::{VoxColor, VoxFile, VoxMaterial};
use vox_mesh::DecodeError;

fn color(r: u8, g: u8, b: u8) -> VoxColor {
    VoxColor { r, g, b, a: 255 }
}

fn file_with(palette: Vec<VoxColor>, materials: Vec<VoxMaterial>) -> VoxFile {
    VoxFile { models: Vec::new(), palette, materials, scenes: Vec::new() }
}

#[test]
fn parses_plain_integers_and_decimals() {
    assert_eq!(parse_emission_milli(b"0"), Some(0));
    assert_eq!(parse_emission_milli(b"1"), Some(1000));
    assert_eq!(parse_emission_milli(b"0.5"), Some(500));
    assert_eq!(parse_emission_milli(b"1.25"), Some(1250));
    assert_eq!(parse_emission_milli(b"12.034"), Some(12034));
    assert_eq!(parse_emission_milli(b"0007"), Some(7000));
}

#[test]
fn fraction_digits_beyond_the_third_are_ignored() {
    assert_eq!(parse_emission_milli(b"1.2345"), Some(1234));
    assert_eq!(parse_emission_milli(b"0.9999"), Some(999));
}

#[test]
fn bare_dot_forms_parse() {
    assert_eq!(parse_emission_milli(b".5"), Some(500));
    assert_eq!(parse_emission_milli(b"2."), Some(2000));
}

#[test]
fn malformed_texts_are_rejected() {
    assert_eq!(parse_emission_milli(b""), None);
    assert_eq!(parse_emission_milli(b"."), None);
    assert_eq!(parse_emission_milli(b"a"), None);
    assert_eq!(parse_emission_milli(b"1.2.3"), None);
    assert_eq!(parse_emission_milli(b"-1"), None);
    assert_eq!(parse_emission_milli(b"1 "), None);
}

#[test]
fn values_beyond_the_fixed_point_range_are_rejected() {
    assert_eq!(parse_emission_milli(b"4294967.295"), Some(u32::MAX));
    assert_eq!(parse_emission_milli(b"4294967.296"), None);
    assert_eq!(parse_emission_milli(b"99999999999999999999"), None);
}

#[test]
fn empty_palette_is_a_decode_error() {
    let f = file_with(Vec::new(), Vec::new());
    assert!(matches!(Palette::resolve(&f), Err(DecodeError::EmptyPalette)));
}

#[test]
fn resolve_aligns_samples_with_palette_slots() {
    let f = file_with(
        vec![color(10, 20, 30), color(40, 50, 60)],
        vec![
            VoxMaterial { emit: None },
            VoxMaterial { emit: Some(b"0.25".to_vec()) },
        ],
    );
    let p = Palette::resolve(&f).unwrap();
    assert_eq!(p.len(), 2);
    let s0 = p.sample(1);
    assert_eq!(s0.color, Rgb { r: 10, g: 20, b: 30 });
    assert_eq!(s0.emission.alpha_milli, 0);
    assert_eq!(s0.emission.intensity_milli, 1000);
    let s1 = p.sample(2);
    assert_eq!(s1.color, Rgb { r: 40, g: 50, b: 60 });
    assert_eq!(s1.emission.alpha_milli, 250);
}

#[test]
fn missing_materials_mean_no_emission() {
    let f = file_with(vec![color(1, 2, 3)], Vec::new());
    let p = Palette::resolve(&f).unwrap();
    assert_eq!(p.sample(1).emission.alpha_milli, 0);
}

#[test]
fn unparseable_emission_text_means_no_emission() {
    let f = file_with(
        vec![color(1, 2, 3)],
        vec![VoxMaterial { emit: Some(b"bright".to_vec()) }],
    );
    let p = Palette::resolve(&f).unwrap();
    assert_eq!(p.sample(1).emission.alpha_milli, 0);
}

#[test]
fn air_never_resolves_to_a_lit_or_colored_sample() {
    // Even with a palette whose every slot is loud and emissive, the cell
    // value 0 resolves to the transparent, zero-emission air sample.
    let f = file_with(
        vec![color(255, 255, 255); 4],
        vec![VoxMaterial { emit: Some(b"1".to_vec()) }; 4],
    );
    let p = Palette::resolve(&f).unwrap();
    let air = p.sample(0);
    assert_eq!(air.color, Rgb { r: 0, g: 0, b: 0 });
    assert_eq!(air.emission.alpha_milli, 0);
    assert_eq!(air.emission.intensity_milli, 0);
}
