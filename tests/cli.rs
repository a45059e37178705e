use mosaicify::cli::{get_matches, parse_u32, ArgError};
use mosaicify::features::ColorSpace;

fn args(words: &[&str]) -> Vec<String> {
    words.iter().map(|w| w.to_string()).collect()
}

#[test]
fn positionals_and_defaults() {
    let m = get_matches(&args(&["target.png", "20", "30", "imgs"])).unwrap();
    assert_eq!(m.target, "target.png");
    assert_eq!(m.row_size, 20);
    assert_eq!(m.col_size, 30);
    assert_eq!(m.images, "imgs");
    assert_eq!(m.color_space, ColorSpace::Lab);
    assert_eq!(m.output, "mosaic.jpg");
    assert!(!m.avoid_duplicates);
}

#[test]
fn options_in_any_order() {
    let m = get_matches(&args(&[
        "-d", "t.jpg", "--color_space", "gray", "4", "-o", "out.png", "5", "dir",
    ]))
    .unwrap();
    assert_eq!(m.target, "t.jpg");
    assert_eq!((m.row_size, m.col_size), (4, 5));
    assert_eq!(m.images, "dir");
    assert_eq!(m.color_space, ColorSpace::Gray);
    assert_eq!(m.output, "out.png");
    assert!(m.avoid_duplicates);
    let m = get_matches(&args(&["t", "1", "2", "d", "-c", "rgb", "--avoid-duplicates"])).unwrap();
    assert_eq!(m.color_space, ColorSpace::Rgb);
    assert!(m.avoid_duplicates);
}

#[test]
fn argument_errors() {
    assert_eq!(get_matches(&args(&["t", "1", "2"])).err(), Some(ArgError::MissingArgument));
    assert_eq!(get_matches(&args(&["t", "1", "2", "d", "e"])).err(), Some(ArgError::UnexpectedArgument));
    assert_eq!(get_matches(&args(&["t", "x", "2", "d"])).err(), Some(ArgError::InvalidNumber));
    assert_eq!(get_matches(&args(&["t", "1", "4294967296", "d"])).err(), Some(ArgError::InvalidNumber));
    assert_eq!(get_matches(&args(&["t", "1", "2", "d", "-c", "hsv"])).err(), Some(ArgError::InvalidColorSpace));
    assert_eq!(get_matches(&args(&["t", "1", "2", "d", "-o"])).err(), Some(ArgError::MissingValue));
    assert_eq!(get_matches(&args(&["t", "1", "2", "d", "-c", "-d"])).err(), Some(ArgError::MissingValue));
    assert_eq!(get_matches(&args(&["t", "1", "2", "d", "--frobnicate"])).err(), Some(ArgError::UnknownOption));
    assert_eq!(get_matches(&args(&["--help"])).err(), Some(ArgError::Help));
    assert_eq!(get_matches(&args(&["t", "-V"])).err(), Some(ArgError::Version));
}

#[test]
fn decimal_numbers() {
    assert_eq!(parse_u32("0"), Some(0));
    assert_eq!(parse_u32("007"), Some(7));
    assert_eq!(parse_u32("4294967295"), Some(u32::MAX));
    assert_eq!(parse_u32("4294967296"), None);
    assert_eq!(parse_u32("99999999999999999999999"), None);
    assert_eq!(parse_u32(""), None);
    assert_eq!(parse_u32("1a"), None);
}
