use refac::binary::{is_printable_ascii, is_valid_utf8_start, BinaryDetector, BinaryReason, SampleError};

/// The first bytes of a file as the tool would read them (up to the sample size).
fn sample_of(detector: &BinaryDetector, contents: &[u8]) -> Vec<u8> {
    contents[..contents.len().min(detector.max_sample_size)].to_vec()
}

fn is_binary_contents(detector: &BinaryDetector, name: &str, contents: &[u8]) -> bool {
    let sample = sample_of(detector, contents);
    detector.is_binary(name, Some(&sample), Some(&sample)).unwrap()
}

fn is_text_contents(detector: &BinaryDetector, name: &str, contents: &[u8]) -> bool {
    let sample = sample_of(detector, contents);
    detector.is_text_file(name, Some(&sample), Some(&sample)).unwrap()
}

fn reason_for(detector: &BinaryDetector, name: &str, contents: &[u8]) -> Option<BinaryReason> {
    let sample = sample_of(detector, contents);
    detector.get_binary_reason(name, Some(&sample), Some(&sample)).unwrap()
}

#[test]
fn test_binary_extension_detection() {
    let detector = BinaryDetector::default();

    assert!(detector.is_binary_by_extension("test.exe"));
    assert!(detector.is_binary_by_extension("test.jpg"));
    assert!(detector.is_binary_by_extension("test.pdf"));
    assert!(detector.is_binary_by_extension("TEST.EXE"));

    assert!(!detector.is_binary_by_extension("test.txt"));
    assert!(!detector.is_binary_by_extension("test.rs"));
    assert!(!detector.is_binary_by_extension("test.py"));
    assert!(!detector.is_binary_by_extension("Makefile"));
}

#[test]
fn test_text_file_detection() {
    let detector = BinaryDetector::default();
    let contents = b"This is a text file with some content.\nIt has multiple lines and should be detected as text.\n";
    assert!(is_text_contents(&detector, "test.txt", contents));
    assert!(!is_binary_contents(&detector, "test.txt", contents));
}

#[test]
fn test_binary_file_detection() {
    let detector = BinaryDetector::default();
    let contents = [0x00u8, 0x01, 0x02, 0x03, 0xFF, 0xFE, 0xFD];
    assert!(!is_text_contents(&detector, "test.bin", &contents));
    assert!(is_binary_contents(&detector, "test.bin", &contents));
}

#[test]
fn test_empty_file_detection() {
    let detector = BinaryDetector::default();
    assert!(is_text_contents(&detector, "empty.txt", b""));
    assert!(!is_binary_contents(&detector, "empty.txt", b""));
}

#[test]
fn test_utf8_file_detection() {
    let detector = BinaryDetector::default();
    let contents = "Hello, 世界! 🌍\nThis file contains émojis and unicode characters: 日本語\n";
    assert!(is_text_contents(&detector, "unicode.txt", contents.as_bytes()));
    assert!(!is_binary_contents(&detector, "unicode.txt", contents.as_bytes()));
}

#[test]
fn test_binary_reason() {
    let detector = BinaryDetector::default();

    let reason = reason_for(&detector, "test.exe", b"");
    assert!(reason.is_some());
    let reason = reason.unwrap();
    assert_eq!(reason, BinaryReason::Extension);
    assert!(reason.fixed_description().unwrap().contains("extension"));

    let reason = reason_for(&detector, "test.bin", b"some text\x00more text");
    assert!(reason.is_some());
    let text = reason.unwrap().fixed_description().unwrap();
    assert!(text.contains("extension") || text.contains("null") || text.contains("binary"));

    let reason = reason_for(&detector, "test.txt", b"This is just text\n");
    assert!(reason.is_none());
}

#[test]
fn test_printable_ascii() {
    assert!(is_printable_ascii(b' '));
    assert!(is_printable_ascii(b'A'));
    assert!(is_printable_ascii(b'0'));
    assert!(is_printable_ascii(b'~'));
    assert!(is_printable_ascii(b'\t'));
    assert!(is_printable_ascii(b'\n'));
    assert!(is_printable_ascii(b'\r'));

    assert!(!is_printable_ascii(0x00));
    assert!(!is_printable_ascii(0x01));
    assert!(!is_printable_ascii(0x7F));
    assert!(!is_printable_ascii(0x80));
    assert!(!is_printable_ascii(0xFF));
}

#[test]
fn test_utf8_start_detection() {
    assert!(is_valid_utf8_start(0x41));
    assert!(is_valid_utf8_start(0xC2));
    assert!(is_valid_utf8_start(0xE0));
    assert!(is_valid_utf8_start(0xF0));

    assert!(!is_valid_utf8_start(0x80));
    assert!(!is_valid_utf8_start(0xBF));
    assert!(!is_valid_utf8_start(0xF8));
    assert!(!is_valid_utf8_start(0xFF));
}

#[test]
fn zero_byte_in_text_file_is_null_bytes_reason() {
    let detector = BinaryDetector::default();
    // Inspection says binary for a zero byte within the first kilobyte.
    assert_eq!(
        reason_for(&detector, "data.txt", b"abc\x00def"),
        Some(BinaryReason::ContentInspection)
    );
    // Without the inspection result the manual analysis finds the zero byte.
    let sample = b"abc\x00def".to_vec();
    assert_eq!(
        detector.get_binary_reason("data.txt", None, Some(&sample)).unwrap(),
        Some(BinaryReason::NullBytes)
    );
}

#[test]
fn high_non_printable_ratio_is_reported_with_counts() {
    let detector = BinaryDetector::default();
    // 4 of 10 bytes are continuation bytes: 40% > 30%.
    let sample = vec![b'a', b'b', 0x80, 0x81, 0x82, 0x83, b'c', b'd', b'e', b'f'];
    assert_eq!(
        detector.get_binary_reason("x.txt", None, Some(&sample)).unwrap(),
        Some(BinaryReason::HighNonPrintableRatio { non_printable: 4, sampled: 10 })
    );
    // 3 of 10 is not above the threshold.
    let sample = vec![b'a', b'b', 0x80, 0x81, 0x82, b'c', b'c', b'd', b'e', b'f'];
    assert_eq!(detector.get_binary_reason("x.txt", None, Some(&sample)).unwrap(), None);
    assert!(!detector.is_binary_by_content_analysis(&sample));
}

#[test]
fn unreadable_sample_is_an_error() {
    let detector = BinaryDetector::default();
    assert_eq!(detector.is_binary("x.txt", None, None), Err(SampleError::Unreadable));
    assert_eq!(detector.is_text_file("x.txt", None, None), Err(SampleError::Unreadable));
    assert_eq!(detector.get_binary_reason("x.txt", None, None), Err(SampleError::Unreadable));
    // A binary extension needs no read.
    assert_eq!(detector.is_binary("x.png", None, None), Ok(true));
}

#[test]
fn fallback_analysis_decides_when_inspection_read_failed() {
    let detector = BinaryDetector::default();
    let zeros = vec![0u8; 16];
    assert_eq!(detector.is_binary("x.txt", None, Some(&zeros)), Ok(true));
    let text = b"plain".to_vec();
    assert_eq!(detector.is_binary("x.txt", None, Some(&text)), Ok(false));
}

#[test]
fn inspection_recognises_pdf_and_boms() {
    let detector = BinaryDetector::default();
    assert!(detector.is_binary_by_inspection(b"%PDF-1.4 rest"));
    assert!(!detector.is_binary_by_inspection(b"\xEF\xBB\xBFhello"));
    assert!(!detector.is_binary_by_inspection(b"hello world"));
    assert!(detector.is_binary_by_inspection(b"he\x00llo"));
}

#[test]
fn custom_detector_threshold() {
    let detector = BinaryDetector::new(4, 1, 2);
    assert_eq!(detector.max_sample_size, 4);
    // Only the first four bytes count: 3 of 4 non-printable > 1/2.
    let contents = [0x80u8, 0x81, 0x82, b'a', b'b', b'c', b'd', b'e'];
    let sample = sample_of(&detector, &contents);
    assert!(detector.is_binary_by_content_analysis(&sample));
}

#[test]
fn ratio_description_is_absent_for_the_ratio_reason() {
    let r = BinaryReason::HighNonPrintableRatio { non_printable: 1, sampled: 2 };
    assert_eq!(r.fixed_description(), None);
    assert_eq!(BinaryReason::NullBytes.fixed_description(), Some("Contains null bytes"));
    assert_eq!(
        BinaryReason::ContentInspection.fixed_description(),
        Some("Content inspection detected binary")
    );
}

#[test]
fn a_reason_is_given_only_for_binary_files() {
    let detector = BinaryDetector::default();
    let cjk = "世界".as_bytes();
    assert!(!is_binary_contents(&detector, "cjk.txt", cjk));
    assert_eq!(reason_for(&detector, "cjk.txt", cjk), None);
    // When the first read fails, the second read's analysis decides both.
    let sample = cjk.to_vec();
    assert_eq!(detector.is_binary("cjk.txt", None, Some(&sample)), Ok(true));
    assert!(detector.get_binary_reason("cjk.txt", None, Some(&sample)).unwrap().is_some());
}
