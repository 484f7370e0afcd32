use ascii_art::catalog::{AsciiGenerator, Font};
use ascii_art::AsciiArtError;

/// A font whose printable characters all have intensity 0 and deviation 0,
/// except for the overrides given as (character, intensity, deviation).
fn test_font(name: &str, overrides: &[(char, u8, u8)]) -> Font {
    let mut intensity = vec![0u8; 95];
    let mut deviation = vec![0u8; 95];
    for &(c, i, d) in overrides {
        let idx = c as usize - 32;
        intensity[idx] = i;
        deviation[idx] = d;
    }
    Font {
        name: name.to_string(),
        charIntensity: intensity,
        charDeviation: deviation,
    }
}

/// The worked-example font: b{10,2}, a{10,5}, c{200,1}.
fn abc_font() -> Font {
    test_font("menlo", &[('b', 10, 2), ('a', 10, 5), ('c', 200, 1)])
}

fn generator(fonts: Vec<Font>) -> AsciiGenerator {
    AsciiGenerator::new(fonts).unwrap()
}

#[test]
fn catalog_accepts_well_formed_fonts() {
    let g = generator(vec![abc_font()]);
    assert_eq!(g.fonts.len(), 1);
}

#[test]
fn catalog_rejects_short_tables() {
    let mut f = abc_font();
    f.charIntensity.pop();
    let r = AsciiGenerator::new(vec![f]);
    assert!(matches!(r, Err(AsciiArtError::CatalogParseError)));
}

#[test]
fn find_reports_missing_font() {
    let g = generator(vec![abc_font()]);
    assert!(g.find("menlo").is_ok());
    let r = g.convert("nosuch", "abc", &vec![vec![0u8]]);
    assert!(matches!(r, Err(AsciiArtError::FontNotFound)));
}

#[test]
fn get_chars_is_sorted_and_total() {
    let g = generator(vec![abc_font()]);
    let chars = g.getChars("menlo").unwrap();
    assert_eq!(chars.len(), 95);
    assert_eq!(chars[0].intensity, 0);
    assert_eq!(chars[chars.len() - 1].intensity, 200);
    for w in chars.windows(2) {
        let a = (w[0].intensity, w[0].deviation, w[0].id);
        let b = (w[1].intensity, w[1].deviation, w[1].id);
        assert!(a <= b);
    }
}

#[test]
fn table_sorts_and_dedups_by_lowest_deviation() {
    // Sorting yields [b, a, c]; dedup by intensity keeps [b, c], dropping a.
    let g = generator(vec![abc_font()]);
    let t = g.buildGlyphTable("menlo", "abc").unwrap();
    assert_eq!(t.len(), 2);
    assert_eq!((t[0].intensity, t[0].deviation, t[0].id), (10, 2, b'b'));
    assert_eq!((t[1].intensity, t[1].deviation, t[1].id), (200, 1, b'c'));
}

#[test]
fn empty_charset_is_reported() {
    let g = generator(vec![abc_font()]);
    let r = g.buildGlyphTable("menlo", "");
    assert!(matches!(r, Err(AsciiArtError::EmptyCharset)));
}

#[test]
fn degenerate_range_is_reported() {
    let g = generator(vec![abc_font()]);
    let r = g.getWeightedRamp("menlo", "b");
    assert!(matches!(r, Err(AsciiArtError::DegenerateIntensityRange)));
    let r = g.getIntensityDistAndCharMap("b", "b");
    assert!(matches!(r, Err(AsciiArtError::FontNotFound)));
}

#[test]
fn ramp_matches_worked_example() {
    // b rescales to 0, c to 255; b wins while gray < 127.5.
    let g = generator(vec![abc_font()]);
    let ramp = g.getWeightedRamp("menlo", "abc").unwrap();
    assert_eq!(ramp.len(), 256);
    assert_eq!(ramp[0], b'b');
    assert_eq!(ramp[100], b'b');
    assert_eq!(ramp[127], b'b');
    assert_eq!(ramp[128], b'c');
    assert_eq!(ramp[255], b'c');
}

#[test]
fn ramp_is_monotone_in_gray_level() {
    let g = generator(vec![test_font(
        "m",
        &[('a', 5, 1), ('b', 60, 1), ('c', 130, 1), ('d', 250, 1)],
    )]);
    let t = g.buildGlyphTable("m", "abcd").unwrap();
    let rank = |id: u8| t.iter().position(|c| c.id == id).unwrap();
    let ramp = g.getWeightedRamp("m", "abcd").unwrap();
    let mut last = 0usize;
    for gl in 0..256 {
        let r = rank(ramp[gl]);
        assert!(r >= last);
        last = r;
    }
}

#[test]
fn quantizer_returns_original_intensities() {
    let g = generator(vec![abc_font()]);
    let (dist, cmap) = g.getIntensityDistAndCharMap("menlo", "abc").unwrap();
    assert_eq!(dist.len(), 256);
    assert_eq!(cmap.len(), 256);
    assert_eq!(dist[0], 10);
    assert_eq!(dist[100], 10);
    assert_eq!(dist[127], 10);
    assert_eq!(dist[128], 200);
    assert_eq!(dist[255], 200);
    assert_eq!(cmap[10], Some(b'b'));
    assert_eq!(cmap[200], Some(b'c'));
    assert_eq!(cmap[0], None);
    assert_eq!(cmap[255], None);
}

#[test]
fn convert_maps_each_pixel_through_the_ramp() {
    let g = generator(vec![abc_font()]);
    let img = vec![vec![100u8, 128u8], vec![0u8, 255u8]];
    let art = g.convert("menlo", "abc", &img).unwrap();
    assert_eq!(art, vec![vec![b'b', b'c'], vec![b'b', b'c']]);
}

#[test]
fn dither_disabled_and_enabled_agree_on_flat_achievable_input() {
    // Intensities 0, 100, 255: rescaling is the identity, so the achievable
    // value 100 is a fixed point of the quantization.
    let g = generator(vec![test_font(
        "m",
        &[('a', 0, 0), ('b', 100, 1), ('c', 255, 1)],
    )]);
    let img = vec![vec![100u8; 3]; 3];
    let plain = g.convert("m", "abc", &img).unwrap();
    let dithered = g.convertWithDither("m", "abc", &img).unwrap();
    assert_eq!(plain, dithered);
    assert_eq!(plain, vec![vec![b'b'; 3]; 3]);
}

#[test]
fn dithering_spreads_the_quantization_error() {
    // Palette {0, 255}: a mid gray row cannot stay mid gray, but the average
    // brightness is preserved by pushing error to the right.
    let g = generator(vec![test_font("m", &[('a', 0, 0), ('c', 255, 1)])]);
    let img = vec![vec![128u8, 128u8]];
    let art = g.convertWithDither("m", "ac", &img).unwrap();
    // 128 quantizes up to 255 (tie to brighter), the -127 error pulls the
    // next pixel down to 73, which quantizes to 0.
    assert_eq!(art, vec![vec![b'c', b'a']]);
}
