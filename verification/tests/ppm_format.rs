use raytracer::ppm::{read_ppm, read_ppm_header, write_ppm, PpmError, Texture};

fn written(width: usize, height: usize, pixels: &[[u8; 3]]) -> Vec<u8> {
    let mut out = Vec::new();
    write_ppm(&mut out, width, height, pixels);
    out
}

#[test]
fn write_ppm_writes_header_then_one_line_per_pixel() {
    let out = written(2, 1, &[[255, 0, 0], [0, 128, 7]]);
    assert_eq!(String::from_utf8(out).unwrap(), "P3\n2 1\n255\n255 0 0\n0 128 7\n");
}

#[test]
fn write_ppm_appends_to_what_is_there() {
    let mut out = b"xy".to_vec();
    write_ppm(&mut out, 0, 0, &[]);
    assert_eq!(out, b"xyP3\n0 0\n255\n".to_vec());
}

#[test]
fn write_ppm_large_dimensions() {
    let out = written(1024, 768, &[]);
    assert_eq!(String::from_utf8(out).unwrap(), "P3\n1024 768\n255\n");
}

#[test]
fn read_ppm_reads_pixels() {
    let t = read_ppm(b"P3\n2 2\n255\n1 2 3\n4 5 6\n7 8 9\n10 11 12\n").unwrap();
    assert_eq!(t.width, 2);
    assert_eq!(t.height, 2);
    assert_eq!(t.pixels, vec![[1, 2, 3], [4, 5, 6], [7, 8, 9], [10, 11, 12]]);
}

#[test]
fn read_ppm_skips_comment_lines_before_dimensions() {
    let t = read_ppm(b"P3\n# made by hand\n#another\n1 1\n255\n9 8 7").unwrap();
    assert_eq!((t.width, t.height), (1, 1));
    assert_eq!(t.pixels, vec![[9, 8, 7]]);
}

#[test]
fn read_ppm_takes_triples_within_each_line() {
    // Two words left over on the first pixel line are dropped; several pixels
    // may share a line.
    let t = read_ppm(b"P3\n3 1\n255\n1 2\n3 4 5 6 7 8 9\n").unwrap();
    assert_eq!(t.pixels, vec![[3, 4, 5], [6, 7, 8]]);
}

#[test]
fn read_ppm_counts_bad_channels_as_zero() {
    let t = read_ppm(b"P3\n1 1\n255\n300 x +7\n").unwrap();
    assert_eq!(t.pixels, vec![[0, 0, 7]]);
}

#[test]
fn read_ppm_does_not_check_pixel_count() {
    let t = read_ppm(b"P3\n5 5\n255\n1 1 1\n").unwrap();
    assert_eq!((t.width, t.height, t.pixels.len()), (5, 5, 1));
}

#[test]
fn read_ppm_accepts_crlf_and_unicode_spaces() {
    let t = read_ppm("P3\u{3000}\r\n2\u{a0}1\r\n 255 \r\n1 2 3\r\n".as_bytes()).unwrap();
    assert_eq!((t.width, t.height), (2, 1));
    assert_eq!(t.pixels, vec![[1, 2, 3]]);
}

#[test]
fn read_ppm_dimension_words_that_are_not_numbers_are_ignored() {
    let t = read_ppm(b"P3\nw=3 x h=4 3 4\n255\n").unwrap();
    assert_eq!((t.width, t.height), (3, 4));
    assert!(t.pixels.is_empty());
}

#[test]
fn read_ppm_refuses_other_magic() {
    assert_eq!(read_ppm(b"P6\n1 1\n255\n").unwrap_err(), PpmError::NotP3);
    assert_eq!(read_ppm(b"").unwrap_err(), PpmError::NotP3);
}

#[test]
fn read_ppm_refuses_bad_dimensions() {
    assert_eq!(read_ppm(b"P3\n2\n255\n").unwrap_err(), PpmError::InvalidDimensions);
    assert_eq!(read_ppm(b"P3\n2 3 4\n255\n").unwrap_err(), PpmError::InvalidDimensions);
    assert_eq!(read_ppm(b"P3\n").unwrap_err(), PpmError::InvalidDimensions);
    assert_eq!(read_ppm(b"P3\n# only comments\n").unwrap_err(), PpmError::InvalidDimensions);
}

#[test]
fn read_ppm_refuses_other_max_value() {
    assert_eq!(read_ppm(b"P3\n1 1\n65535\n1 2 3\n").unwrap_err(), PpmError::InvalidMaxValue);
    assert_eq!(read_ppm(b"P3\n1 1\n").unwrap_err(), PpmError::InvalidMaxValue);
    // A comment after the dimensions is not skipped.
    assert_eq!(read_ppm(b"P3\n1 1\n# c\n255\n").unwrap_err(), PpmError::InvalidMaxValue);
}

#[test]
fn read_ppm_refuses_invalid_utf8_in_lines_it_reads() {
    assert_eq!(read_ppm(b"\xffP3\n1 1\n255\n").unwrap_err(), PpmError::InvalidUtf8);
    assert_eq!(read_ppm(b"P3\n# \xc3\x28\n1 1\n255\n").unwrap_err(), PpmError::InvalidUtf8);
    assert_eq!(read_ppm(b"P3\n1 1\n255\n1 2 3\n\xed\xa0\x80\n").unwrap_err(), PpmError::InvalidUtf8);
}

#[test]
fn read_ppm_stops_at_the_first_refusal() {
    // The bad second line is never read: the first one is refused already.
    assert_eq!(read_ppm(b"P2\n\xff\n").unwrap_err(), PpmError::NotP3);
}

#[test]
fn read_ppm_accepts_multibyte_text_in_comments() {
    let t = read_ppm("P3\n# caf\u{e9} \u{1f600}\n1 1\n255\n0 0 0\n".as_bytes()).unwrap();
    assert_eq!(t.pixels, vec![[0, 0, 0]]);
}

#[test]
fn read_ppm_header_gives_where_pixels_start() {
    let input = b"P3\n# c\n4 2\n255\n1 2 3\n";
    assert_eq!(read_ppm_header(input), Ok((4, 2, 15)));
    assert_eq!(read_ppm_header(b"P3\n4 2\n256\n"), Err(PpmError::InvalidMaxValue));
}

#[test]
fn read_ppm_reads_back_what_write_ppm_wrote() {
    let pixels = vec![[0, 0, 0], [255, 255, 255], [10, 200, 99], [7, 0, 130]];
    let out = written(2, 2, &pixels);
    let t = read_ppm(&out).unwrap();
    assert_eq!((t.width, t.height), (2, 2));
    assert_eq!(t.pixels, pixels);
}

#[test]
fn texel_at_wraps_coordinates() {
    let t = Texture {
        width: 2,
        height: 2,
        pixels: vec![[1, 1, 1], [2, 2, 2], [3, 3, 3], [4, 4, 4]],
    };
    assert_eq!(t.texel_at(0, 0), [1, 1, 1]);
    assert_eq!(t.texel_at(1, 0), [2, 2, 2]);
    assert_eq!(t.texel_at(0, 1), [3, 3, 3]);
    assert_eq!(t.texel_at(5, 3), [4, 4, 4]);
    assert_eq!(t.texel_at(2, 4), [1, 1, 1]);
}

#[test]
fn comment_line_after_magic_changes_nothing() {
    let plain = read_ppm(b"P3\n2 1\n255\n1 2 3 4 5 6\n").unwrap();
    let commented = read_ppm(b"P3\n# a comment\n2 1\n255\n1 2 3 4 5 6\n").unwrap();
    assert_eq!((plain.width, plain.height), (commented.width, commented.height));
    assert_eq!(plain.pixels, commented.pixels);
    assert_eq!(read_ppm(b"P3\n# x\n1\n255\n").unwrap_err(), read_ppm(b"P3\n1\n255\n").unwrap_err());
}
