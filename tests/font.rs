use ja2ps::error::CliError;
use ja2ps::font::FontMetrics;
use ja2ps::page::body_font;

#[test]
fn body_font_metrics() {
    let f = body_font();
    assert_eq!(f.width(), 6);
    assert_eq!(f.height(), 14);
    assert_eq!(f.row_height(), 16);
}

#[test]
fn odd_size_width_rounds_down() {
    let f = FontMetrics { size: 11, internal_leading: 0, ascent: 7, descent: 3, external_leading: 1 };
    assert_eq!(f.width(), 5);
    assert_eq!(f.height(), 10);
    assert_eq!(f.row_height(), 11);
}

#[test]
fn cli_error_other_and_io() {
    let e = CliError::new(String::from("bad input"));
    assert_eq!(e.message().map(|m| m.as_str()), Some("bad input"));
    let io = std::io::Error::new(std::io::ErrorKind::Other, "disk");
    let e: CliError = CliError::from(io);
    assert!(matches!(e, CliError::Io(_)));
    assert!(e.message().is_none());
}
