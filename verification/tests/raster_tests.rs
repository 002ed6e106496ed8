use pjsekai_scores_rs::raster::{check_raster_size, encode_quality, SkiaDirectError, SkiaImageFormat};

#[test]
fn encode_quality_caps_jpeg_quality() {
    assert_eq!(encode_quality(SkiaImageFormat::Png), 100);
    assert_eq!(encode_quality(SkiaImageFormat::Jpeg { quality: 85 }), 85);
    assert_eq!(encode_quality(SkiaImageFormat::Jpeg { quality: 250 }), 100);
}

#[test]
fn raster_size_must_be_positive() {
    assert_eq!(check_raster_size(10, 20).ok(), Some((10, 20)));
    assert!(matches!(check_raster_size(0, 20), Err(SkiaDirectError::InvalidSize)));
    assert!(matches!(check_raster_size(10, -1), Err(SkiaDirectError::InvalidSize)));
}

#[test]
fn error_messages_name_the_failure() {
    assert_eq!(
        SkiaDirectError::InvalidSize.message(),
        "chart has an invalid raster size"
    );
    let io = SkiaDirectError::Io {
        path: "notes/a.png".to_string(),
        source: "not found".to_string(),
    };
    assert_eq!(io.message(), "failed to read image asset notes/a.png: not found");
    assert_eq!(
        SkiaDirectError::Decode("b.png".to_string()).message(),
        "failed to decode image asset b.png"
    );
}
