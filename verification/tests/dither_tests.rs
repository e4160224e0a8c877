use dither::codec::{decode, encode, DecodeError};
use dither::color::Color;
use dither::engine::dither_pixels;
use dither::matcher::closest_color;
use dither::palette::{default_palette, parse_palette, PaletteError};
use dither::pipeline::{dither, DitherError};

fn rgb(r: i64, g: i64, b: i64) -> Color {
    Color { r, g, b }
}

/// farbfeld header for a given width and height.
fn header(w: u32, h: u32) -> Vec<u8> {
    let mut v = vec![102, 97, 114, 98, 102, 101, 108, 100];
    v.extend_from_slice(&w.to_be_bytes());
    v.extend_from_slice(&h.to_be_bytes());
    v
}

fn push_pixel(v: &mut Vec<u8>, r: u16, g: u16, b: u16, a: u16) {
    v.extend_from_slice(&r.to_be_bytes());
    v.extend_from_slice(&g.to_be_bytes());
    v.extend_from_slice(&b.to_be_bytes());
    v.extend_from_slice(&a.to_be_bytes());
}

#[test]
fn codec_round_trip_shape_and_values() {
    let px = vec![rgb(1, 2, 3), rgb(65535, 0, 40000), rgb(7, 8, 9), rgb(10, 11, 12)];
    let bytes = encode(2, 2, &px);
    assert_eq!(bytes.len(), 16 + 8 * 4);
    let img = decode(&bytes).expect("encoded image must decode");
    assert_eq!(img.width, 2);
    assert_eq!(img.height, 2);
    assert_eq!(img.pixels.len(), 4);
    assert_eq!(img.pixels, px);
}

#[test]
fn encode_writes_opaque_alpha() {
    let bytes = encode(1, 1, &vec![rgb(0, 0, 0)]);
    assert_eq!(&bytes[16..24], &[0, 0, 0, 0, 0, 0, 0xFF, 0xFF]);
}

#[test]
fn decode_bad_magic() {
    let mut bytes = vec![102, 97, 114, 98, 102, 101, 108, 99]; // last byte wrong
    bytes.extend_from_slice(&[0, 0, 0, 0, 0, 0, 0, 0]);
    assert!(matches!(decode(&bytes), Err(DecodeError::HeaderMismatch)));
}

#[test]
fn decode_short_input() {
    assert!(matches!(decode(&vec![102, 97, 114]), Err(DecodeError::TruncatedInput)));
}

#[test]
fn decode_truncated_payload() {
    let mut bytes = header(1, 1);
    bytes.extend_from_slice(&[0, 0, 0, 0]); // half a pixel record
    assert!(matches!(decode(&bytes), Err(DecodeError::TruncatedInput)));
}

#[test]
fn default_palette_entries() {
    let pal = default_palette();
    assert_eq!(
        pal,
        vec![
            rgb(0, 0, 0),
            rgb(65535, 65535, 65535),
            rgb(65535, 0, 0),
            rgb(0, 65535, 0),
            rgb(0, 0, 65535),
        ]
    );
}

#[test]
fn palette_rescaling_is_times_256() {
    let pal = parse_palette(&b"ff0000".to_vec()).expect("valid line");
    assert_eq!(pal, vec![rgb(65280, 0, 0)]);
}

#[test]
fn palette_mixed_lines_and_cases() {
    let pal = parse_palette(&b"ff8001\n\n00FF00\n".to_vec()).expect("valid lines");
    assert_eq!(pal, vec![rgb(65280, 32768, 256), rgb(0, 65280, 0)]);
}

#[test]
fn palette_bad_hex_line() {
    assert_eq!(parse_palette(&b"xyzzy!".to_vec()), Err(PaletteError::BadLine));
}

#[test]
fn palette_wrong_length_line() {
    assert_eq!(parse_palette(&b"ff00\n".to_vec()), Err(PaletteError::BadLine));
    assert_eq!(parse_palette(&b"ff0000ff\n".to_vec()), Err(PaletteError::BadLine));
}

#[test]
fn palette_empty_text() {
    assert_eq!(parse_palette(&b"".to_vec()), Err(PaletteError::EmptyPalette));
    assert_eq!(parse_palette(&b"\n\n".to_vec()), Err(PaletteError::EmptyPalette));
}

#[test]
fn closest_color_singleton_any_source() {
    let pal = vec![rgb(1000, 2000, 3000)];
    // out-of-range diffused values are treated as ordinary signed integers
    let res = closest_color(&pal, &rgb(-100000, 70000, 123456));
    assert_eq!(res, rgb(1000, 2000, 3000));
}

#[test]
fn closest_color_picks_nearest() {
    let pal = vec![rgb(0, 0, 0), rgb(65535, 65535, 65535)];
    assert_eq!(closest_color(&pal, &rgb(1000, 1000, 1000)), rgb(0, 0, 0));
    assert_eq!(closest_color(&pal, &rgb(60000, 60000, 60000)), rgb(65535, 65535, 65535));
}

#[test]
fn closest_color_green_weighs_more_than_red() {
    // equal raw differences: a green mismatch costs more than a red one
    let pal = vec![rgb(30000, 0, 0), rgb(0, 30000, 0)];
    assert_eq!(closest_color(&pal, &rgb(30000, 30000, 0)), rgb(0, 30000, 0));
}

#[test]
fn closest_color_redmean_shifts_blue_weight() {
    // for a red-heavy source the blue difference is cheaper than the red one
    let pal = vec![rgb(0, 0, 65535), rgb(65535, 0, 0)];
    assert_eq!(closest_color(&pal, &rgb(65535, 0, 65535)), rgb(65535, 0, 0));
}

#[test]
fn dither_engine_two_by_two_boundaries() {
    // hand-simulated scan: only in-bounds neighbors receive error
    let pal = vec![rgb(0, 0, 0), rgb(16, 0, 0)];
    let mut data = vec![rgb(12, 0, 0), rgb(0, 0, 0), rgb(0, 0, 0), rgb(0, 0, 0)];
    let out = dither_pixels(&mut data, &pal, 2, 2);
    assert_eq!(out, vec![rgb(16, 0, 0), rgb(0, 0, 0), rgb(0, 0, 0), rgb(0, 0, 0)]);
    // (0,0): error -4: right gets 7*(-4)/16 = -1, below 5*(-4)/16 = -1,
    // below-right -4/16 = 0; later steps round their errors to zero
    assert_eq!(data, vec![rgb(12, 0, 0), rgb(-1, 0, 0), rgb(-1, 0, 0), rgb(0, 0, 0)]);
}

#[test]
fn dither_engine_exact_palette_input_unchanged() {
    let pal = default_palette();
    let mut data = vec![rgb(65535, 0, 0), rgb(0, 0, 0), rgb(65535, 0, 0), rgb(0, 0, 0)];
    let before = data.clone();
    let out = dither_pixels(&mut data, &pal, 2, 2);
    assert_eq!(out, before);
    assert_eq!(data, before);
}

#[test]
fn pipeline_one_black_pixel_default_palette() {
    let mut input = header(1, 1);
    push_pixel(&mut input, 0, 0, 0, 0);
    let out = dither(&input, None).expect("valid input");
    let mut expected = header(1, 1);
    expected.extend_from_slice(&[0, 0, 0, 0, 0, 0, 0xFF, 0xFF]);
    assert_eq!(out, expected);
}

#[test]
fn pipeline_wrong_header_reports_mismatch() {
    let mut input = vec![0u8; 8];
    input.extend_from_slice(&header(1, 1)[8..]);
    push_pixel(&mut input, 0, 0, 0, 0);
    assert_eq!(dither(&input, None), Err(DitherError::HeaderMismatch));
}

#[test]
fn pipeline_palette_file_used() {
    // both pixels already match palette entries exactly
    let mut input = header(2, 1);
    push_pixel(&mut input, 65280, 0, 0, 0);
    push_pixel(&mut input, 0, 0, 0, 0);
    let out = dither(&input, Some(&b"ff0000\n000000\n".to_vec())).expect("valid input");
    let mut expected = header(2, 1);
    push_pixel(&mut expected, 65280, 0, 0, 65535);
    push_pixel(&mut expected, 0, 0, 0, 65535);
    assert_eq!(out, expected);
}

#[test]
fn pipeline_bad_palette_reported() {
    let mut input = header(1, 1);
    push_pixel(&mut input, 0, 0, 0, 0);
    assert_eq!(
        dither(&input, Some(&b"nothex".to_vec())),
        Err(DitherError::PaletteBadLine)
    );
    assert_eq!(dither(&input, Some(&b"\n".to_vec())), Err(DitherError::PaletteEmpty));
}

#[test]
fn pipeline_output_pixels_are_palette_entries() {
    let palette = [
        (0u16, 0u16, 0u16),
        (65535, 65535, 65535),
        (65535, 0, 0),
        (0, 65535, 0),
        (0, 0, 65535),
    ];
    let mut input = header(3, 3);
    let samples = [
        (123, 45, 6789),
        (40000, 20000, 10000),
        (65535, 65535, 0),
        (1, 2, 3),
        (30000, 30000, 30000),
        (60000, 100, 60000),
        (500, 64000, 500),
        (12345, 54321, 11111),
        (65535, 0, 65535),
    ];
    for (r, g, b) in samples {
        push_pixel(&mut input, r, g, b, 0);
    }
    let out = dither(&input, None).expect("valid input");
    for k in 0..9 {
        let off = 16 + 8 * k;
        let r = u16::from_be_bytes([out[off], out[off + 1]]);
        let g = u16::from_be_bytes([out[off + 2], out[off + 3]]);
        let b = u16::from_be_bytes([out[off + 4], out[off + 5]]);
        let a = u16::from_be_bytes([out[off + 6], out[off + 7]]);
        assert_eq!(a, 65535);
        assert!(palette.contains(&(r, g, b)), "pixel {k} is not a palette entry");
    }
}

#[test]
fn pipeline_truncated_reported() {
    let mut input = header(2, 2);
    push_pixel(&mut input, 0, 0, 0, 0); // only one of the four promised pixels
    assert_eq!(dither(&input, None), Err(DitherError::TruncatedInput));
}

#[test]
fn pipeline_too_many_pixels_reported() {
    let n: usize = 8_000_001;
    let mut input = header(n as u32, 1);
    input.resize(16 + 8 * n, 0);
    assert_eq!(dither(&input, None), Err(DitherError::ImageTooLarge));
}
