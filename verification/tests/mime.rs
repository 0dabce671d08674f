use harbor::mime::{detect, detect_by_extension, magic_match, matches_mime_pattern};

#[test]
fn pattern_exact_match() {
    assert!(matches_mime_pattern("image/png", "image/png"));
    assert!(!matches_mime_pattern("image/png", "image/jpeg"));
}

#[test]
fn pattern_wildcard() {
    assert!(matches_mime_pattern("image/png", "image/*"));
    assert!(matches_mime_pattern("image/jpeg", "image/*"));
    assert!(matches_mime_pattern("text/plain", "text/*"));
    assert!(!matches_mime_pattern("application/pdf", "image/*"));
}

#[test]
fn pattern_no_false_prefix() {
    assert!(!matches_mime_pattern("imageextra/png", "image/*"));
}

#[test]
fn extension_known_types() {
    let cases = vec![
        ("test.m3u", "audio/x-mpegurl"),
        ("test.ass", "text/x-ssa"),
        ("test.svg", "image/svg+xml"),
        ("test.drawio", "application/xml"),
        ("test.excalidraw", "application/json"),
        ("test.kdenlive", "application/xml"),
        ("test.odt", "application/vnd.oasis.opendocument.text"),
        ("test.sql", "text/x-sql"),
        ("test.yml", "text/x-yaml"),
        ("test.toml", "text/x-toml"),
        ("test.md", "text/markdown"),
        ("test.csv", "text/csv"),
        ("test.bat", "text/x-batch"),
        ("test.sh", "text/x-shellscript"),
        ("test.desktop", "application/x-desktop"),
        ("test.pdf", "application/pdf"),
        ("test.rs", "text/x-rust"),
    ];
    for (name, expected) in cases {
        let got = detect_by_extension(name);
        assert_eq!(got.as_deref(), Some(expected), "failed for {name}");
    }
}

#[test]
fn extension_unknown_returns_none() {
    assert_eq!(detect_by_extension("file.xyzzy123"), None);
}

#[test]
fn extension_is_case_insensitive() {
    assert_eq!(detect_by_extension("/a/B/PHOTO.JPG").as_deref(), Some("image/jpeg"));
    assert_eq!(detect_by_extension(".bashrc"), None);
    assert_eq!(detect_by_extension("noext"), None);
}

#[test]
fn magic_png() {
    assert_eq!(detect("magic_png.bin", b"\x89PNG\r\n\x1a\n").as_deref(), Some("image/png"));
}

#[test]
fn magic_jpeg() {
    assert_eq!(detect("magic_jpeg.bin", b"\xFF\xD8\xFF\xE0").as_deref(), Some("image/jpeg"));
}

#[test]
fn magic_pdf() {
    assert_eq!(detect("magic_pdf.bin", b"%PDF-1.4").as_deref(), Some("application/pdf"));
}

#[test]
fn magic_zip_with_apk_ext() {
    assert_eq!(
        detect("magic_zip.apk", b"PK\x03\x04").as_deref(),
        Some("application/vnd.android.package-archive")
    );
}

#[test]
fn magic_mp4_ftyp() {
    assert_eq!(detect("magic_mp4.bin", b"\x00\x00\x00\x1cftypisom").as_deref(), Some("video/mp4"));
}

#[test]
fn magic_webp() {
    assert_eq!(detect("magic_webp.bin", b"RIFF\x00\x00\x00\x00WEBP").as_deref(), Some("image/webp"));
}

#[test]
fn magic_elf() {
    assert_eq!(detect("magic_elf.bin", b"\x7FELF\x02\x01\x01").as_deref(), Some("application/x-executable"));
}

#[test]
fn magic_gzip_tgz() {
    assert_eq!(detect("archive.tar.gz", b"\x1F\x8B\x08").as_deref(), Some("application/x-compressed-tar"));
}

#[test]
fn empty_file_falls_back_to_ext() {
    assert_eq!(detect("empty.md", b"").as_deref(), Some("text/markdown"));
}

#[test]
fn nonexistent_with_ext() {
    // A file that cannot be read gives no leading bytes.
    assert_eq!(detect("/tmp/does_not_exist_harbor_mime_test.pdf", &[]).as_deref(), Some("application/pdf"));
}

#[test]
fn magic_markup_and_families() {
    assert_eq!(detect("page", b"<!DOCTYPE HTML><html>").as_deref(), Some("text/html"));
    assert_eq!(detect("drawing.svg", b"<svg xmlns='x'>").as_deref(), Some("image/svg+xml"));
    assert_eq!(detect("data", b"<root/>").as_deref(), Some("text/xml"));
    assert_eq!(detect("data", b"<\xFF\xFE").as_deref(), Some("text/xml"));
    assert_eq!(detect("page", b"<html>\xFF").as_deref(), Some("text/xml"));
    assert_eq!(detect("plan.drawio", b"<?xml version='1.0'?>").as_deref(), Some("application/xml"));
    assert_eq!(detect("setup.msi", b"MZ\x90\x00").as_deref(), Some("application/x-msi"));
    assert_eq!(detect("setup.exe", b"MZ\x90\x00").as_deref(), Some("application/x-dosexec"));
    assert_eq!(detect("a.tgz", b"\x1F\x8B").as_deref(), Some("application/x-compressed-tar"));
    assert_eq!(detect("a.gz", b"\x1F\x8B").as_deref(), Some("application/gzip"));
    assert_eq!(detect("clip.mov", b"\x00\x00\x00\x14ftypqt  ").as_deref(), Some("video/quicktime"));
    assert_eq!(detect("doc.docx", b"PK\x03\x04").as_deref(), Some(
        "application/vnd.openxmlformats-officedocument.wordprocessingml.document"
    ));
    assert_eq!(detect("x.zip", b"PK\x03\x04").as_deref(), Some("application/zip"));
    assert_eq!(detect("photo.png", b"not a signature").as_deref(), Some("image/png"));
    assert_eq!(detect("mystery", b"not a signature"), None);
}

#[test]
fn magic_iso_signature() {
    let mut buf = vec![0u8; 33000];
    buf[32769..32774].copy_from_slice(b"CD001");
    assert_eq!(detect("disk", &buf).as_deref(), Some("application/x-iso9660-image"));
    assert!(magic_match(&buf[..32773], "disk").is_err());
}
