use binparse_cli::checksum::{crc32, simple_sum, adler32};
use binparse_cli::filter::{matches_glob, simple_glob_match};
use binparse_cli::formats::{parse_builtin_format, detect_format, get_builtin_formats};
use binparse_cli::dsl::FormatDefinition;

#[test]
fn test_crc32() {
    let data = b"123456789";
    assert_eq!(crc32(data), 0xCBF43926);
}

#[test]
fn test_adler32() {
    let data = b"123456789";
    assert_eq!(adler32(data), 0x091E01DE);
}

#[test]
fn test_simple_sum() {
    let data = &[1, 2, 3, 4, 5];
    assert_eq!(simple_sum(data), 15);
}

#[test]
fn test_glob_match_exact() {
    assert!(matches_glob("PNGFile.ihdr.width", "PNGFile.ihdr.width"));
    assert!(!matches_glob("PNGFile.ihdr.width", "PNGFile.ihdr.height"));
}

#[test]
fn test_glob_match_wildcard_name() {
    assert!(matches_glob("*.width", "PNGFile.ihdr.width"));
    assert!(matches_glob("*.width", "root.width"));
    assert!(!matches_glob("*.width", "root.height"));
}

#[test]
fn test_glob_match_prefix() {
    assert!(matches_glob("PNGFile.ihdr.*", "PNGFile.ihdr.width"));
    assert!(matches_glob("PNGFile.ihdr.*", "PNGFile.ihdr.height"));
    assert!(!matches_glob("PNGFile.ihdr.*", "PNGFile.signature"));
}

#[test]
fn test_simple_glob_star() {
    assert!(simple_glob_match("*", "anything"));
    assert!(simple_glob_match("w*", "width"));
    assert!(simple_glob_match("*th", "width"));
}

#[test]
fn test_parse_png_format() {
    let def = parse_builtin_format("png").unwrap();
    assert_eq!(def.name, "PNG");
    assert_eq!(def.magic, Some(vec![0x89, 0x50, 0x4E, 0x47, 0x0D, 0x0A, 0x1A, 0x0A]));
}

#[test]
fn test_detect_png_format() {
    let data = vec![0x89, 0x50, 0x4E, 0x47, 0x0D, 0x0A, 0x1A, 0x0A, 0x00, 0x00, 0x00, 0x0D];
    let def = detect_format(&data).unwrap();
    assert_eq!(def.name, "PNG");
}

#[test]
fn test_detect_bmp_format() {
    let data = vec![0x42, 0x4D, 0x00, 0x00, 0x00, 0x00];
    let def = detect_format(&data).unwrap();
    assert_eq!(def.name, "BMP");
}

#[test]
fn test_detect_wav_format() {
    let data = vec![0x52, 0x49, 0x46, 0x46, 0x00, 0x00, 0x00, 0x00, 0x57, 0x41, 0x56, 0x45];
    let def = detect_format(&data).unwrap();
    assert_eq!(def.name, "WAV");
}

#[test]
fn test_detect_zip_format() {
    let data = vec![0x50, 0x4B, 0x03, 0x04, 0x00, 0x00];
    let def = detect_format(&data).unwrap();
    assert_eq!(def.name, "ZIP");
}

#[test]
fn test_detect_elf_format() {
    let data = vec![0x7F, 0x45, 0x4C, 0x46, 0x01, 0x00];
    let def = detect_format(&data).unwrap();
    assert_eq!(def.name, "ELF");
}

#[test]
fn test_detect_pe_format() {
    let data = vec![0x4D, 0x5A, 0x00, 0x00];
    let def = detect_format(&data).unwrap();
    assert_eq!(def.name, "PE");
}

#[test]
fn test_all_builtin_formats_valid() {
    let formats = get_builtin_formats();
    for (name, yaml) in formats {
        let result = FormatDefinition::from_yaml(yaml);
        assert!(result.is_ok(), "Format {} has invalid YAML: {:?}", name, result.err());
    }
}
