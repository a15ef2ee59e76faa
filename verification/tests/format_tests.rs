use pio::format::{sampling_factors, ChromaSubsampling, Format};

#[test]
fn format_from_extension() {
    assert_eq!(Format::from_ext("jpeg"), Some(Format::JPEG));
    assert_eq!(Format::from_ext("jpg"), Some(Format::JPEG));
    assert_eq!(Format::from_ext("png"), Some(Format::PNG));
    assert_eq!(Format::from_ext("webp"), Some(Format::WEBP));
    assert_eq!(Format::from_ext("JPEG"), None);
    assert_eq!(Format::from_ext("gif"), None);
    assert_eq!(Format::from_ext(""), None);
}

#[test]
fn format_from_magic_number() {
    assert_eq!(Format::from_magic(&[0xff, 0xd8, 0xff, 0xe0]), Some(Format::JPEG));
    assert_eq!(
        Format::from_magic(&[0x89, b'P', b'N', b'G', 0x0d, 0x0a, 0x1a, 0x0a, 0]),
        Some(Format::PNG)
    );
    assert_eq!(
        Format::from_magic(b"RIFF\x12\x34\x56\x78WEBPVP8 "),
        Some(Format::WEBP)
    );
}

#[test]
fn format_from_magic_rejects_short_or_unknown() {
    assert_eq!(Format::from_magic(&[]), None);
    assert_eq!(Format::from_magic(&[0xff, 0xd8]), None);
    assert_eq!(Format::from_magic(b"GIF89a"), None);
    assert_eq!(Format::from_magic(b"RIFF\x12\x34\x56\x78WAVE"), None);
}

#[test]
fn transparency_support() {
    assert!(!Format::JPEG.supports_transparency());
    assert!(Format::PNG.supports_transparency());
    assert!(Format::WEBP.supports_transparency());
}

#[test]
fn chroma_subsampling_support() {
    assert!(Format::JPEG.supports_chroma_subsampling());
    assert!(!Format::PNG.supports_chroma_subsampling());
    assert!(!Format::WEBP.supports_chroma_subsampling());
}

#[test]
fn sampling_factors_per_mode() {
    assert_eq!(sampling_factors(ChromaSubsampling::_444), [[1, 1], [1, 1], [1, 1]]);
    assert_eq!(sampling_factors(ChromaSubsampling::_422), [[2, 1], [1, 1], [1, 1]]);
    assert_eq!(sampling_factors(ChromaSubsampling::_420), [[2, 2], [1, 1], [1, 1]]);
}
