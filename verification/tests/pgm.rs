use vi_rs::pgm::{parse_pgm_p5, yaml_value_span};

fn make_p5(w: usize, h: usize, pixels: &[u8]) -> Vec<u8> {
    let mut v = format!("P5\n{w} {h}\n255\n").into_bytes();
    v.extend_from_slice(pixels);
    v
}

#[test]
fn parse_pgm_p5_roundtrips_dims_and_pixels() {
    let pixels = vec![0u8, 50, 205, 255, 100, 150];
    let raw = make_p5(3, 2, &pixels);
    let (w, h, px) = parse_pgm_p5(&raw).unwrap();
    assert_eq!((w, h), (3, 2));
    assert_eq!(px, pixels);
}

#[test]
fn parse_pgm_p5_skips_comment_line() {
    let mut raw = b"P5\n# GIMP comment\n2 2\n255\n".to_vec();
    raw.extend_from_slice(&[1, 2, 3, 4]);
    let (w, h, px) = parse_pgm_p5(&raw).unwrap();
    assert_eq!((w, h), (2, 2));
    assert_eq!(px, vec![1, 2, 3, 4]);
}

#[test]
fn parse_pgm_p5_rejects_p2_ascii() {
    let raw = b"P2\n2 2\n255\n1 2 3 4\n".to_vec();
    assert!(parse_pgm_p5(&raw).is_err());
}

#[test]
fn parse_pgm_p5_rejects_short_raster() {
    let raw = make_p5(4, 4, &[0, 0, 0]);
    assert!(parse_pgm_p5(&raw).is_err());
}

#[test]
fn parse_pgm_error_messages() {
    assert_eq!(parse_pgm_p5(b"").unwrap_err(), "empty PGM");
    assert_eq!(parse_pgm_p5(b"  # only a comment\n").unwrap_err(), "empty PGM");
    assert_eq!(parse_pgm_p5(b"P6\n1 1\n255\n\0").unwrap_err(), "not a binary (P5) PGM");
    assert_eq!(parse_pgm_p5(b"P5\n").unwrap_err(), "missing width");
    assert_eq!(parse_pgm_p5(b"P5 x 2 255 ").unwrap_err(), "bad width");
    assert_eq!(parse_pgm_p5(b"P5 2").unwrap_err(), "missing height");
    assert_eq!(parse_pgm_p5(b"P5 2 -1 255 ").unwrap_err(), "bad height");
    assert_eq!(parse_pgm_p5(b"P5 2 2").unwrap_err(), "missing maxval");
    assert_eq!(parse_pgm_p5(b"P5 2 2 65535 ").unwrap_err(), "maxval 65535 > 255 unsupported");
    assert_eq!(
        parse_pgm_p5(b"P5 18446744073709551615 2 255 ").unwrap_err(),
        "width*height overflow"
    );
    assert_eq!(
        parse_pgm_p5(&make_p5(4, 4, &[0, 0, 0])).unwrap_err(),
        "PGM raster too short: need 16 bytes, have 3"
    );
    assert_eq!(parse_pgm_p5(b"P5 99999999999999999999 2 255 ").unwrap_err(), "bad width");
}

#[test]
fn parse_pgm_header_details() {
    // A '+' sign is accepted, tabs and carriage returns separate tokens, a
    // comment may follow a token, and only one whitespace byte precedes the raster.
    let mut raw = b"P5\t+2\r\n#c\n1 # trailing\n255\n\n".to_vec();
    raw.extend_from_slice(&[7, 8]);
    let (w, h, px) = parse_pgm_p5(&raw).unwrap();
    assert_eq!((w, h), (2, 1));
    assert_eq!(px, vec![b'\n', 7]);
    // Extra raster bytes are ignored.
    let (w, h, px) = parse_pgm_p5(&make_p5(1, 1, &[9, 9, 9])).unwrap();
    assert_eq!((w, h, px), (1, 1, vec![9]));
}

fn value_of(text: &str, key: &str) -> Option<String> {
    yaml_value_span(text, key).map(|(s, e)| text.chars().skip(s).take(e - s).collect())
}

#[test]
fn yaml_value_span_finds_values() {
    let text = "image: map_tsudanuma.pgm\nresolution: 0.050000\norigin: [-5.0, -3.5, 0.0]\nnegate: 0 # flag\n";
    assert_eq!(yaml_value_span(text, "image"), Some((7, 24)));
    assert_eq!(value_of(text, "image").as_deref(), Some("map_tsudanuma.pgm"));
    assert_eq!(value_of(text, "resolution").as_deref(), Some("0.050000"));
    assert_eq!(value_of(text, "origin").as_deref(), Some("[-5.0, -3.5, 0.0]"));
    assert_eq!(value_of(text, "negate").as_deref(), Some("0"));
}

#[test]
fn yaml_value_span_missing_key_is_none() {
    let text = "image: a.pgm\nresolution: 0.1\n";
    assert_eq!(yaml_value_span(text, "origin"), None);
    assert_eq!(yaml_value_span("", "image"), None);
    assert_eq!(yaml_value_span("image a.pgm\n", "image"), None);
}

#[test]
fn yaml_value_span_handles_spacing_and_crlf() {
    let text = "  occupied_thresh  :   0.65  \r\nfree_thresh:0.196\r\n";
    assert_eq!(value_of(text, "occupied_thresh").as_deref(), Some("0.65"));
    assert_eq!(value_of(text, "free_thresh").as_deref(), Some("0.196"));
    assert_eq!(value_of("mode: # nothing\n", "mode").as_deref(), Some(""));
}
