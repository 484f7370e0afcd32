use ascii_art::catalog::{AsciiGenerator, Font};
use ascii_art::output::{addAnsiTrueColor, to_string};
use ascii_art::raster::{downsample, grayscale, stretchContrast, Rgb};
use ascii_art::utils::AsciiColorMap;

#[test]
fn downsample_dimensions_are_ceilings() {
    let img = vec![vec![7u8; 8]; 15];
    let out = downsample(&img);
    assert_eq!(out.len(), 2);
    assert_eq!(out[0].len(), 2);
    assert_eq!(out[1].len(), 2);
    let img = vec![vec![9u8; 7]; 14];
    let out = downsample(&img);
    assert_eq!(out.len(), 1);
    assert_eq!(out[0].len(), 1);
}

#[test]
fn downsample_takes_rounded_block_means() {
    // A single 2 x 2 image forms one partial block: mean 2.5 rounds up to 3.
    let img = vec![vec![1u8, 2u8], vec![3u8, 4u8]];
    let out = downsample(&img);
    assert_eq!(out, vec![vec![3u8]]);
    // A full 7 x 14 block of constant value keeps that value.
    let img = vec![vec![99u8; 7]; 14];
    assert_eq!(downsample(&img), vec![vec![99u8]]);
}

#[test]
fn stretch_contrast_fills_the_full_range() {
    let img = vec![vec![10u8, 15u8, 20u8]];
    let out = stretchContrast(img);
    assert_eq!(out, vec![vec![0u8, 128u8, 255u8]]);
}

#[test]
fn stretch_contrast_keeps_order_and_extremes() {
    let img = vec![vec![30u8, 70u8], vec![50u8, 90u8]];
    let out = stretchContrast(img.clone());
    let flat_in: Vec<u8> = img.iter().flatten().copied().collect();
    let flat_out: Vec<u8> = out.iter().flatten().copied().collect();
    assert_eq!(flat_out.iter().min(), Some(&0u8));
    assert_eq!(flat_out.iter().max(), Some(&255u8));
    for i in 0..flat_in.len() {
        for j in 0..flat_in.len() {
            if flat_in[i] <= flat_in[j] {
                assert!(flat_out[i] <= flat_out[j]);
            }
        }
    }
}

#[test]
fn stretch_contrast_leaves_flat_images_alone() {
    let img = vec![vec![7u8, 7u8], vec![7u8, 7u8]];
    assert_eq!(stretchContrast(img.clone()), img);
}

#[test]
fn grayscale_mixes_weighted_luminance() {
    let img = vec![vec![
        Rgb { r: 0, g: 0, b: 0 },
        Rgb { r: 255, g: 255, b: 255 },
        Rgb { r: 255, g: 0, b: 0 },
        Rgb { r: 0, g: 255, b: 0 },
        Rgb { r: 0, g: 0, b: 255 },
    ]];
    let out = grayscale(&img);
    // round(2126 r + 7152 g + 722 b) / 10000 per channel.
    assert_eq!(out, vec![vec![0u8, 255u8, 54u8, 182u8, 18u8]]);
}

#[test]
fn color_map_quantizes_through_the_table() {
    let mut table = vec![0u8; 256];
    for i in 0..256 {
        table[i] = if i < 128 { 0 } else { 255 };
    }
    let map = AsciiColorMap::new(table);
    assert_eq!(map.index_of(42), 42);
    let mut v = 127u8;
    map.map_color(&mut v);
    assert_eq!(v, 0);
    let mut v = 128u8;
    map.map_color(&mut v);
    assert_eq!(v, 255);
}

#[test]
fn serialize_joins_rows_with_newlines() {
    let art = vec![vec![b'A', b'B'], vec![b'C', b'D']];
    assert_eq!(to_string(&art), "AB\nCD");
}

#[test]
fn serialize_round_trips_through_splitting() {
    let art = vec![vec![b'#', b' ', b'@'], vec![b'.', b':', b';']];
    let text = to_string(&art);
    let rows: Vec<Vec<u8>> = text.split('\n').map(|s| s.as_bytes().to_vec()).collect();
    assert_eq!(rows, art);
}

#[test]
fn ansi_overlay_tags_each_glyph_with_its_pixel() {
    let art = vec![vec![b'X']];
    let img = vec![vec![Rgb { r: 1, g: 2, b: 3 }]];
    let out = addAnsiTrueColor(&art, &img);
    assert_eq!(out.len(), 1);
    assert_eq!(out[0].len(), 1);
    assert_eq!(out[0][0], "\u{1b}[38;2;1;2;3mX");
}

#[test]
fn pipeline_runs_end_to_end() {
    // Downsample, stretch, then render a small synthetic picture.
    let mut intensity = vec![0u8; 95];
    let mut deviation = vec![0u8; 95];
    intensity[b'#' as usize - 32] = 255;
    intensity[b'.' as usize - 32] = 32;
    deviation[b' ' as usize - 32] = 0;
    let font = Font {
        name: "plain".to_string(),
        charIntensity: intensity,
        charDeviation: deviation,
    };
    let g = AsciiGenerator::new(vec![font]).unwrap();
    let mut img: Vec<Vec<u8>> = Vec::new();
    for y in 0..28 {
        img.push((0..14).map(|x| ((x + y) * 4) as u8).collect());
    }
    let small = downsample(&img);
    let stretched = stretchContrast(small);
    let art = g.convert("plain", " .#", &stretched).unwrap();
    assert_eq!(art.len(), 2);
    assert_eq!(art[0].len(), 2);
    for row in &art {
        for c in row {
            assert!(*c == b' ' || *c == b'.' || *c == b'#');
        }
    }
    let text = to_string(&art);
    assert_eq!(text.split('\n').count(), 2);
}
