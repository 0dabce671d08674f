//! MIME type detection from a file's leading bytes and its name.
use vstd::prelude::*;
use vstd::utf8::valid_utf8;

use crate::path::{extension, file_stem, file_name_of, split_name};
use crate::text::{
    ascii_lower_seq, chars_eq, ends_with, is_prefix, is_suffix, lower_chars, starts_with, to_chars,
};
use vstd::string::StringExecFns;

verus! {

/// How many leading bytes of a file detection looks at: enough to reach
/// the ISO 9660 signature at offset 32769.
pub const HEAD_LEN: usize = 33000;

/// Whether `detected` is matched by `pattern`: equal to it, or, for a
/// pattern `type/*`, of the form `type/...`.
pub open spec fn mime_pattern_matches(detected: Seq<char>, pattern: Seq<char>) -> bool {
    ||| detected == pattern
    ||| is_suffix(seq!['/', '*'], pattern) && {
        let prefix = pattern.take(pattern.len() - 2);
        is_prefix(prefix, detected) && detected.len() > prefix.len() && detected[prefix.len()
            as int] == '/'
    }
}

/// Whether the detected MIME type `detected` is matched by `pattern`
/// (`image/png`, or a wildcard such as `image/*`).
pub fn matches_mime_pattern(detected: &str, pattern: &str) -> (res: bool)
    ensures
        res == mime_pattern_matches(detected@, pattern@),
{
    let d = to_chars(detected);
    let p = to_chars(pattern);
    if chars_eq(d.as_slice(), p.as_slice()) {
        return true;
    }
    let mut star: Vec<char> = Vec::new();
    star.push('/');
    star.push('*');
    assert(star@ =~= seq!['/', '*']);
    if !ends_with(p.as_slice(), star.as_slice()) {
        return false;
    }
    let prefix = &p.as_slice()[0..p.len() - 2];
    assert(prefix@ =~= p@.take(p@.len() - 2));
    starts_with(d.as_slice(), prefix) && d.len() > prefix.len() && d[prefix.len()] == '/'
}

/// First value stored under `key` in a table of name pairs.
pub open spec fn lookup(table: Seq<(&'static str, &'static str)>, key: Seq<char>) -> Option<
    &'static str,
>
    decreases table.len(),
{
    if table.len() == 0 {
        None
    } else if table[0].0@ == key {
        Some(table[0].1)
    } else {
        lookup(table.skip(1), key)
    }
}

/// Looks `key` up in a table of name pairs.
fn lookup_in(table: &Vec<(&'static str, &'static str)>, key: &[char]) -> (res: Option<
    &'static str,
>)
    ensures
        res == lookup(table@, key@),
{
    let mut i: usize = 0;
    assert(table@.skip(0) =~= table@);
    while i < table.len()
        invariant
            i <= table.len(),
            lookup(table@, key@) == lookup(table@.skip(i as int), key@),
        decreases table.len() - i,
    {
        let entry = table[i];
        let k = to_chars(entry.0);
        assert(table@.skip(i as int)[0] == entry);
        if chars_eq(k.as_slice(), key) {
            return Some(entry.1);
        }
        assert(table@.skip(i as int).skip(1) =~= table@.skip(i + 1));
        i = i + 1;
    }
    None
}

/// File extensions and the MIME types they stand for.
pub open spec fn extension_table() -> Seq<(&'static str, &'static str)> {
    seq![
        ("png", "image/png"),
        ("jpg", "image/jpeg"),
        ("jpeg", "image/jpeg"),
        ("gif", "image/gif"),
        ("webp", "image/webp"),
        ("bmp", "image/bmp"),
        ("tiff", "image/tiff"),
        ("tif", "image/tiff"),
        ("svg", "image/svg+xml"),
        ("ico", "image/x-icon"),
        ("avif", "image/avif"),
        ("heic", "image/heif"),
        ("heif", "image/heif"),
        ("mp4", "video/mp4"),
        ("m4v", "video/mp4"),
        ("mkv", "video/x-matroska"),
        ("avi", "video/x-msvideo"),
        ("mov", "video/quicktime"),
        ("webm", "video/webm"),
        ("flv", "video/x-flv"),
        ("wmv", "video/x-ms-wmv"),
        ("ts", "video/mp2t"),
        ("mp3", "audio/mpeg"),
        ("flac", "audio/flac"),
        ("ogg", "audio/ogg"),
        ("oga", "audio/ogg"),
        ("wav", "audio/wav"),
        ("aac", "audio/aac"),
        ("m4a", "audio/mp4"),
        ("wma", "audio/x-ms-wma"),
        ("opus", "audio/opus"),
        ("m3u", "audio/x-mpegurl"),
        ("m3u8", "audio/x-mpegurl"),
        ("pdf", "application/pdf"),
        ("zip", "application/zip"),
        ("gz", "application/gzip"),
        ("tgz", "application/x-compressed-tar"),
        ("bz2", "application/x-bzip2"),
        ("xz", "application/x-xz"),
        ("zst", "application/zstd"),
        ("zstd", "application/zstd"),
        ("7z", "application/x-7z-compressed"),
        ("rar", "application/x-rar-compressed"),
        ("tar", "application/x-tar"),
        ("rpm", "application/x-rpm"),
        ("deb", "application/vnd.debian.binary-package"),
        ("iso", "application/x-iso9660-image"),
        ("dmg", "application/x-apple-diskimage"),
        ("appimage", "application/x-executable"),
        ("exe", "application/x-dosexec"),
        ("msi", "application/x-msi"),
        ("apk", "application/vnd.android.package-archive"),
        ("apkm", "application/vnd.android.package-archive"),
        ("xpi", "application/x-xpinstall"),
        ("jar", "application/java-archive"),
        ("epub", "application/epub+zip"),
        ("docx", "application/vnd.openxmlformats-officedocument.wordprocessingml.document"),
        ("xlsx", "application/vnd.openxmlformats-officedocument.spreadsheetml.sheet"),
        ("pptx", "application/vnd.openxmlformats-officedocument.presentationml.presentation"),
        ("odt", "application/vnd.oasis.opendocument.text"),
        ("ods", "application/vnd.oasis.opendocument.spreadsheet"),
        ("odp", "application/vnd.oasis.opendocument.presentation"),
        ("doc", "application/msword"),
        ("xls", "application/vnd.ms-excel"),
        ("ppt", "application/vnd.ms-powerpoint"),
        ("html", "text/html"),
        ("htm", "text/html"),
        ("css", "text/css"),
        ("js", "text/javascript"),
        ("mjs", "text/javascript"),
        ("json", "application/json"),
        ("xml", "text/xml"),
        ("txt", "text/plain"),
        ("csv", "text/csv"),
        ("md", "text/markdown"),
        ("markdown", "text/markdown"),
        ("yml", "text/x-yaml"),
        ("yaml", "text/x-yaml"),
        ("toml", "text/x-toml"),
        ("ini", "text/x-ini"),
        ("cfg", "text/x-ini"),
        ("sql", "text/x-sql"),
        ("sh", "text/x-shellscript"),
        ("bash", "text/x-shellscript"),
        ("zsh", "text/x-shellscript"),
        ("fish", "text/x-shellscript"),
        ("bat", "text/x-batch"),
        ("cmd", "text/x-batch"),
        ("ps1", "text/x-powershell"),
        ("py", "text/x-python"),
        ("rs", "text/x-rust"),
        ("c", "text/x-c"),
        ("h", "text/x-c"),
        ("cpp", "text/x-c++"),
        ("cxx", "text/x-c++"),
        ("cc", "text/x-c++"),
        ("hpp", "text/x-c++"),
        ("java", "text/x-java"),
        ("go", "text/x-go"),
        ("rb", "text/x-ruby"),
        ("php", "text/x-php"),
        ("lua", "text/x-lua"),
        ("r", "text/x-r"),
        ("swift", "text/x-swift"),
        ("kt", "text/x-kotlin"),
        ("kts", "text/x-kotlin"),
        ("pl", "text/x-perl"),
        ("pm", "text/x-perl"),
        ("tex", "text/x-tex"),
        ("latex", "text/x-tex"),
        ("log", "text/x-log"),
        ("conf", "text/plain"),
        ("ass", "text/x-ssa"),
        ("ssa", "text/x-ssa"),
        ("srt", "text/x-subrip"),
        ("vtt", "text/vtt"),
        ("desktop", "application/x-desktop"),
        ("drawio", "application/xml"),
        ("excalidraw", "application/json"),
        ("kdenlive", "application/xml"),
        ("torrent", "application/x-bittorrent"),
        ("wasm", "application/wasm"),
    ]
}

fn extension_entries() -> (v: Vec<(&'static str, &'static str)>)
    ensures
        v@ == extension_table(),
{
    vec![
        ("png", "image/png"),
        ("jpg", "image/jpeg"),
        ("jpeg", "image/jpeg"),
        ("gif", "image/gif"),
        ("webp", "image/webp"),
        ("bmp", "image/bmp"),
        ("tiff", "image/tiff"),
        ("tif", "image/tiff"),
        ("svg", "image/svg+xml"),
        ("ico", "image/x-icon"),
        ("avif", "image/avif"),
        ("heic", "image/heif"),
        ("heif", "image/heif"),
        ("mp4", "video/mp4"),
        ("m4v", "video/mp4"),
        ("mkv", "video/x-matroska"),
        ("avi", "video/x-msvideo"),
        ("mov", "video/quicktime"),
        ("webm", "video/webm"),
        ("flv", "video/x-flv"),
        ("wmv", "video/x-ms-wmv"),
        ("ts", "video/mp2t"),
        ("mp3", "audio/mpeg"),
        ("flac", "audio/flac"),
        ("ogg", "audio/ogg"),
        ("oga", "audio/ogg"),
        ("wav", "audio/wav"),
        ("aac", "audio/aac"),
        ("m4a", "audio/mp4"),
        ("wma", "audio/x-ms-wma"),
        ("opus", "audio/opus"),
        ("m3u", "audio/x-mpegurl"),
        ("m3u8", "audio/x-mpegurl"),
        ("pdf", "application/pdf"),
        ("zip", "application/zip"),
        ("gz", "application/gzip"),
        ("tgz", "application/x-compressed-tar"),
        ("bz2", "application/x-bzip2"),
        ("xz", "application/x-xz"),
        ("zst", "application/zstd"),
        ("zstd", "application/zstd"),
        ("7z", "application/x-7z-compressed"),
        ("rar", "application/x-rar-compressed"),
        ("tar", "application/x-tar"),
        ("rpm", "application/x-rpm"),
        ("deb", "application/vnd.debian.binary-package"),
        ("iso", "application/x-iso9660-image"),
        ("dmg", "application/x-apple-diskimage"),
        ("appimage", "application/x-executable"),
        ("exe", "application/x-dosexec"),
        ("msi", "application/x-msi"),
        ("apk", "application/vnd.android.package-archive"),
        ("apkm", "application/vnd.android.package-archive"),
        ("xpi", "application/x-xpinstall"),
        ("jar", "application/java-archive"),
        ("epub", "application/epub+zip"),
        ("docx", "application/vnd.openxmlformats-officedocument.wordprocessingml.document"),
        ("xlsx", "application/vnd.openxmlformats-officedocument.spreadsheetml.sheet"),
        ("pptx", "application/vnd.openxmlformats-officedocument.presentationml.presentation"),
        ("odt", "application/vnd.oasis.opendocument.text"),
        ("ods", "application/vnd.oasis.opendocument.spreadsheet"),
        ("odp", "application/vnd.oasis.opendocument.presentation"),
        ("doc", "application/msword"),
        ("xls", "application/vnd.ms-excel"),
        ("ppt", "application/vnd.ms-powerpoint"),
        ("html", "text/html"),
        ("htm", "text/html"),
        ("css", "text/css"),
        ("js", "text/javascript"),
        ("mjs", "text/javascript"),
        ("json", "application/json"),
        ("xml", "text/xml"),
        ("txt", "text/plain"),
        ("csv", "text/csv"),
        ("md", "text/markdown"),
        ("markdown", "text/markdown"),
        ("yml", "text/x-yaml"),
        ("yaml", "text/x-yaml"),
        ("toml", "text/x-toml"),
        ("ini", "text/x-ini"),
        ("cfg", "text/x-ini"),
        ("sql", "text/x-sql"),
        ("sh", "text/x-shellscript"),
        ("bash", "text/x-shellscript"),
        ("zsh", "text/x-shellscript"),
        ("fish", "text/x-shellscript"),
        ("bat", "text/x-batch"),
        ("cmd", "text/x-batch"),
        ("ps1", "text/x-powershell"),
        ("py", "text/x-python"),
        ("rs", "text/x-rust"),
        ("c", "text/x-c"),
        ("h", "text/x-c"),
        ("cpp", "text/x-c++"),
        ("cxx", "text/x-c++"),
        ("cc", "text/x-c++"),
        ("hpp", "text/x-c++"),
        ("java", "text/x-java"),
        ("go", "text/x-go"),
        ("rb", "text/x-ruby"),
        ("php", "text/x-php"),
        ("lua", "text/x-lua"),
        ("r", "text/x-r"),
        ("swift", "text/x-swift"),
        ("kt", "text/x-kotlin"),
        ("kts", "text/x-kotlin"),
        ("pl", "text/x-perl"),
        ("pm", "text/x-perl"),
        ("tex", "text/x-tex"),
        ("latex", "text/x-tex"),
        ("log", "text/x-log"),
        ("conf", "text/plain"),
        ("ass", "text/x-ssa"),
        ("ssa", "text/x-ssa"),
        ("srt", "text/x-subrip"),
        ("vtt", "text/vtt"),
        ("desktop", "application/x-desktop"),
        ("drawio", "application/xml"),
        ("excalidraw", "application/json"),
        ("kdenlive", "application/xml"),
        ("torrent", "application/x-bittorrent"),
        ("wasm", "application/wasm"),
    ]
}

/// The lower-cased extension of a path.
pub open spec fn ext_lower_spec(p: Seq<char>) -> Option<Seq<char>> {
    match extension(p) {
        Some(e) => Some(ascii_lower_seq(e)),
        None => None,
    }
}

/// The extension of `path`, ASCII lower-cased.
pub fn ext_lower(path: &str) -> (res: Option<Vec<char>>)
    ensures
        match res {
            Some(e) => ext_lower_spec(path@) == Some(e@),
            None => ext_lower_spec(path@).is_none(),
        },
{
    let p = to_chars(path);
    match file_name_of(p.as_slice()) {
        Some(name) => {
            let (_stem, ext) = split_name(name.as_slice());
            match ext {
                Some(e) => Some(lower_chars(e.as_slice())),
                None => None,
            }
        },
        None => None,
    }
}

/// The MIME type that the extension of path `p` stands for.
pub open spec fn extension_mime(p: Seq<char>) -> Option<&'static str> {
    match ext_lower_spec(p) {
        Some(e) => lookup(extension_table(), e),
        None => None,
    }
}

/// Detects a MIME type from the extension of `path` alone.
pub fn detect_by_extension(path: &str) -> (res: Option<String>)
    ensures
        match extension_mime(path@) {
            Some(m) => res.is_some() && res.unwrap()@ == m@,
            None => res.is_none(),
        },
{
    let ext = ext_lower(path);
    match ext {
        Some(e) => {
            let table = extension_entries();
            match lookup_in(&table, e.as_slice()) {
                Some(m) => Some(String::from_str(m)),
                None => None,
            }
        },
        None => None,
    }
}

/// `p` occurs in `s` at index `i`.
pub open spec fn bytes_at(s: Seq<u8>, i: int, p: Seq<u8>) -> bool {
    0 <= i && i + p.len() <= s.len() && s.subrange(i, i + p.len()) == p
}

/// `s` begins with `p`.
pub open spec fn bytes_start(s: Seq<u8>, p: Seq<u8>) -> bool {
    bytes_at(s, 0, p)
}

/// `p` occurs somewhere in `s`.
pub open spec fn bytes_contain(s: Seq<u8>, p: Seq<u8>) -> bool {
    exists|i: int| bytes_at(s, i, p)
}

/// ASCII lower-casing of one byte.
pub open spec fn lower_byte(b: u8) -> u8 {
    if 65 <= b <= 90 {
        (b + 32) as u8
    } else {
        b
    }
}

/// ASCII lower-casing of a byte sequence.
pub open spec fn lower_bytes(s: Seq<u8>) -> Seq<u8> {
    s.map_values(|b: u8| lower_byte(b))
}

/// Whether `p` occurs in `s` at index `i`.
fn bytes_match_at(s: &[u8], i: usize, p: &[u8]) -> (res: bool)
    ensures
        res == bytes_at(s@, i as int, p@),
{
    if i > s.len() || p.len() > s.len() - i {
        return false;
    }
    let mut k: usize = 0;
    while k < p.len()
        invariant
            k <= p.len(),
            i + p.len() <= s.len(),
            s@.subrange(i as int, i + k) == p@.take(k as int),
        decreases p.len() - k,
    {
        if s[i + k] != p[k] {
            assert(s@.subrange(i as int, i + p.len())[k as int] != p@[k as int]);
            return false;
        }
        assert(s@.subrange(i as int, i + k + 1) =~= s@.subrange(i as int, i + k).push(s@[i + k]));
        assert(p@.take(k + 1) =~= p@.take(k as int).push(p@[k as int]));
        k = k + 1;
    }
    assert(p@.take(p.len() as int) =~= p@);
    true
}

/// Whether `s` begins with `p`.
fn bytes_starts(s: &[u8], p: &Vec<u8>) -> (res: bool)
    ensures
        res == bytes_start(s@, p@),
{
    bytes_match_at(s, 0, p.as_slice())
}

/// Whether `p` occurs somewhere in `s`.
fn bytes_contains(s: &[u8], p: &Vec<u8>) -> (res: bool)
    ensures
        res == bytes_contain(s@, p@),
{
    if p.len() > s.len() {
        return false;
    }
    let last = s.len() - p.len();
    let mut i: usize = 0;
    while i < last
        invariant
            p.len() <= s.len(),
            last == s.len() - p.len(),
            i <= last,
            forall|j: int| 0 <= j < i ==> !bytes_at(s@, j, p@),
        decreases last - i,
    {
        if bytes_match_at(s, i, p.as_slice()) {
            return true;
        }
        i = i + 1;
    }
    if bytes_match_at(s, last, p.as_slice()) {
        return true;
    }
    assert forall|j: int| !bytes_at(s@, j, p@) by {
        if 0 <= j < i {
        }
    }
    false
}

/// ASCII lower-cases the bytes of `s`.
fn lower_byte_vec(s: &[u8]) -> (out: Vec<u8>)
    ensures
        out@ == lower_bytes(s@),
{
    let mut out: Vec<u8> = Vec::new();
    let mut i: usize = 0;
    while i < s.len()
        invariant
            i <= s.len(),
            out@ == lower_bytes(s@.take(i as int)),
        decreases s.len() - i,
    {
        let b = s[i];
        let l: u8 = if 65 <= b && b <= 90 { b + 32 } else { b };
        out.push(l);
        i = i + 1;
        assert(lower_bytes(s@.take(i as int)) =~= lower_bytes(s@.take(i - 1)).push(lower_byte(b)));
    }
    assert(s@.take(s.len() as int) =~= s@);
    out
}

/// Whether `bytes` are valid UTF-8.
///
/// Trusted: calls `std::str::from_utf8`, which std documents as failing
/// exactly when the slice is not UTF-8; `valid_utf8` is vstd's statement of
/// well-formed UTF-8.
#[verifier::external_body]
fn is_utf8(bytes: &[u8]) -> (res: bool)
    ensures
        res == valid_utf8(bytes@),
{
    std::str::from_utf8(bytes).is_ok()
}

/// The bytes `\x89PNG`.
pub open spec fn sig_png() -> Seq<u8> {
    seq![0x89u8, 0x50, 0x4E, 0x47]
}

fn sig_png_bytes() -> (v: Vec<u8>)
    ensures
        v@ == sig_png(),
{
    vec![0x89u8, 0x50, 0x4E, 0x47]
}

/// The bytes `\xFF\xD8\xFF`.
pub open spec fn sig_jpeg() -> Seq<u8> {
    seq![0xFFu8, 0xD8, 0xFF]
}

fn sig_jpeg_bytes() -> (v: Vec<u8>)
    ensures
        v@ == sig_jpeg(),
{
    vec![0xFFu8, 0xD8, 0xFF]
}

/// The bytes `GIF8`.
pub open spec fn sig_gif() -> Seq<u8> {
    seq![0x47u8, 0x49, 0x46, 0x38]
}

fn sig_gif_bytes() -> (v: Vec<u8>)
    ensures
        v@ == sig_gif(),
{
    vec![0x47u8, 0x49, 0x46, 0x38]
}

/// The bytes `RIFF`.
pub open spec fn sig_riff() -> Seq<u8> {
    seq![0x52u8, 0x49, 0x46, 0x46]
}

fn sig_riff_bytes() -> (v: Vec<u8>)
    ensures
        v@ == sig_riff(),
{
    vec![0x52u8, 0x49, 0x46, 0x46]
}

/// The bytes `WEBP`.
pub open spec fn sig_webp() -> Seq<u8> {
    seq![0x57u8, 0x45, 0x42, 0x50]
}

fn sig_webp_bytes() -> (v: Vec<u8>)
    ensures
        v@ == sig_webp(),
{
    vec![0x57u8, 0x45, 0x42, 0x50]
}

/// The bytes `II\x2A\x00`.
pub open spec fn sig_tiff_le() -> Seq<u8> {
    seq![0x49u8, 0x49, 0x2A, 0x00]
}

fn sig_tiff_le_bytes() -> (v: Vec<u8>)
    ensures
        v@ == sig_tiff_le(),
{
    vec![0x49u8, 0x49, 0x2A, 0x00]
}

/// The bytes `MM\x00\x2A`.
pub open spec fn sig_tiff_be() -> Seq<u8> {
    seq![0x4Du8, 0x4D, 0x00, 0x2A]
}

fn sig_tiff_be_bytes() -> (v: Vec<u8>)
    ensures
        v@ == sig_tiff_be(),
{
    vec![0x4Du8, 0x4D, 0x00, 0x2A]
}

/// The bytes `BM`.
pub open spec fn sig_bmp() -> Seq<u8> {
    seq![0x42u8, 0x4D]
}

fn sig_bmp_bytes() -> (v: Vec<u8>)
    ensures
        v@ == sig_bmp(),
{
    vec![0x42u8, 0x4D]
}

/// The bytes `%PDF`.
pub open spec fn sig_pdf() -> Seq<u8> {
    seq![0x25u8, 0x50, 0x44, 0x46]
}

fn sig_pdf_bytes() -> (v: Vec<u8>)
    ensures
        v@ == sig_pdf(),
{
    vec![0x25u8, 0x50, 0x44, 0x46]
}

/// The bytes `PK\x03\x04`.
pub open spec fn sig_zip() -> Seq<u8> {
    seq![0x50u8, 0x4B, 0x03, 0x04]
}

fn sig_zip_bytes() -> (v: Vec<u8>)
    ensures
        v@ == sig_zip(),
{
    vec![0x50u8, 0x4B, 0x03, 0x04]
}

/// The bytes `7z\xBC\xAF`.
pub open spec fn sig_sevenz() -> Seq<u8> {
    seq![0x37u8, 0x7A, 0xBC, 0xAF]
}

fn sig_sevenz_bytes() -> (v: Vec<u8>)
    ensures
        v@ == sig_sevenz(),
{
    vec![0x37u8, 0x7A, 0xBC, 0xAF]
}

/// The bytes `Rar!`.
pub open spec fn sig_rar() -> Seq<u8> {
    seq![0x52u8, 0x61, 0x72, 0x21]
}

fn sig_rar_bytes() -> (v: Vec<u8>)
    ensures
        v@ == sig_rar(),
{
    vec![0x52u8, 0x61, 0x72, 0x21]
}

/// The bytes `\x1F\x8B`.
pub open spec fn sig_gzip() -> Seq<u8> {
    seq![0x1Fu8, 0x8B]
}

fn sig_gzip_bytes() -> (v: Vec<u8>)
    ensures
        v@ == sig_gzip(),
{
    vec![0x1Fu8, 0x8B]
}

/// The bytes `\xED\xAB\xEE\xDB`.
pub open spec fn sig_rpm() -> Seq<u8> {
    seq![0xEDu8, 0xAB, 0xEE, 0xDB]
}

fn sig_rpm_bytes() -> (v: Vec<u8>)
    ensures
        v@ == sig_rpm(),
{
    vec![0xEDu8, 0xAB, 0xEE, 0xDB]
}

/// The bytes `\x7FELF`.
pub open spec fn sig_elf() -> Seq<u8> {
    seq![0x7Fu8, 0x45, 0x4C, 0x46]
}

fn sig_elf_bytes() -> (v: Vec<u8>)
    ensures
        v@ == sig_elf(),
{
    vec![0x7Fu8, 0x45, 0x4C, 0x46]
}

/// The bytes `MZ`.
pub open spec fn sig_mz() -> Seq<u8> {
    seq![0x4Du8, 0x5A]
}

fn sig_mz_bytes() -> (v: Vec<u8>)
    ensures
        v@ == sig_mz(),
{
    vec![0x4Du8, 0x5A]
}

/// The bytes `ID3`.
pub open spec fn sig_id3() -> Seq<u8> {
    seq![0x49u8, 0x44, 0x33]
}

fn sig_id3_bytes() -> (v: Vec<u8>)
    ensures
        v@ == sig_id3(),
{
    vec![0x49u8, 0x44, 0x33]
}

/// The bytes `fLaC`.
pub open spec fn sig_flac() -> Seq<u8> {
    seq![0x66u8, 0x4C, 0x61, 0x43]
}

fn sig_flac_bytes() -> (v: Vec<u8>)
    ensures
        v@ == sig_flac(),
{
    vec![0x66u8, 0x4C, 0x61, 0x43]
}

/// The bytes `OggS`.
pub open spec fn sig_ogg() -> Seq<u8> {
    seq![0x4Fu8, 0x67, 0x67, 0x53]
}

fn sig_ogg_bytes() -> (v: Vec<u8>)
    ensures
        v@ == sig_ogg(),
{
    vec![0x4Fu8, 0x67, 0x67, 0x53]
}

/// The bytes `ftyp`.
pub open spec fn sig_ftyp() -> Seq<u8> {
    seq![0x66u8, 0x74, 0x79, 0x70]
}

fn sig_ftyp_bytes() -> (v: Vec<u8>)
    ensures
        v@ == sig_ftyp(),
{
    vec![0x66u8, 0x74, 0x79, 0x70]
}

/// The bytes `CD001`.
pub open spec fn sig_iso() -> Seq<u8> {
    seq![0x43u8, 0x44, 0x30, 0x30, 0x31]
}

fn sig_iso_bytes() -> (v: Vec<u8>)
    ensures
        v@ == sig_iso(),
{
    vec![0x43u8, 0x44, 0x30, 0x30, 0x31]
}

/// The bytes `<?xml`.
pub open spec fn sig_xml() -> Seq<u8> {
    seq![0x3Cu8, 0x3F, 0x78, 0x6D, 0x6C]
}

fn sig_xml_bytes() -> (v: Vec<u8>)
    ensures
        v@ == sig_xml(),
{
    vec![0x3Cu8, 0x3F, 0x78, 0x6D, 0x6C]
}

/// The bytes `<`.
pub open spec fn sig_lt() -> Seq<u8> {
    seq![0x3Cu8]
}

fn sig_lt_bytes() -> (v: Vec<u8>)
    ensures
        v@ == sig_lt(),
{
    vec![0x3Cu8]
}

/// The bytes `qt  `.
pub open spec fn sig_qt() -> Seq<u8> {
    seq![0x71u8, 0x74, 0x20, 0x20]
}

fn sig_qt_bytes() -> (v: Vec<u8>)
    ensures
        v@ == sig_qt(),
{
    vec![0x71u8, 0x74, 0x20, 0x20]
}

/// The bytes `moov`.
pub open spec fn sig_moov() -> Seq<u8> {
    seq![0x6Du8, 0x6F, 0x6F, 0x76]
}

fn sig_moov_bytes() -> (v: Vec<u8>)
    ensures
        v@ == sig_moov(),
{
    vec![0x6Du8, 0x6F, 0x6F, 0x76]
}

/// The bytes `<!doctype html`.
pub open spec fn sig_doctype() -> Seq<u8> {
    seq![0x3Cu8, 0x21, 0x64, 0x6F, 0x63, 0x74, 0x79, 0x70, 0x65, 0x20, 0x68, 0x74, 0x6D, 0x6C]
}

fn sig_doctype_bytes() -> (v: Vec<u8>)
    ensures
        v@ == sig_doctype(),
{
    vec![0x3Cu8, 0x21, 0x64, 0x6F, 0x63, 0x74, 0x79, 0x70, 0x65, 0x20, 0x68, 0x74, 0x6D, 0x6C]
}

/// The bytes `<html`.
pub open spec fn sig_html() -> Seq<u8> {
    seq![0x3Cu8, 0x68, 0x74, 0x6D, 0x6C]
}

fn sig_html_bytes() -> (v: Vec<u8>)
    ensures
        v@ == sig_html(),
{
    vec![0x3Cu8, 0x68, 0x74, 0x6D, 0x6C]
}

/// The bytes `<svg`.
pub open spec fn sig_svg() -> Seq<u8> {
    seq![0x3Cu8, 0x73, 0x76, 0x67]
}

fn sig_svg_bytes() -> (v: Vec<u8>)
    ensures
        v@ == sig_svg(),
{
    vec![0x3Cu8, 0x73, 0x76, 0x67]
}

/// Equality of a file extension with a literal.
fn ext_is(e: &Option<Vec<char>>, lit: &str) -> (res: bool)
    ensures
        res == (e is Some && e->0@ == lit@),
{
    match e {
        Some(v) => {
            let l = to_chars(lit);
            chars_eq(v.as_slice(), l.as_slice())
        },
        None => false,
    }
}

/// ZIP containers named by their extension.
pub open spec fn zip_table() -> Seq<(&'static str, &'static str)> {
    seq![
        ("apk", "application/vnd.android.package-archive"),
        ("apkm", "application/vnd.android.package-archive"),
        ("xpi", "application/x-xpinstall"),
        ("docx", "application/vnd.openxmlformats-officedocument.wordprocessingml.document"),
        ("xlsx", "application/vnd.openxmlformats-officedocument.spreadsheetml.sheet"),
        ("pptx", "application/vnd.openxmlformats-officedocument.presentationml.presentation"),
        ("odt", "application/vnd.oasis.opendocument.text"),
        ("ods", "application/vnd.oasis.opendocument.spreadsheet"),
        ("odp", "application/vnd.oasis.opendocument.presentation"),
        ("jar", "application/java-archive"),
        ("epub", "application/epub+zip"),
    ]
}

fn zip_entries() -> (v: Vec<(&'static str, &'static str)>)
    ensures
        v@ == zip_table(),
{
    vec![
        ("apk", "application/vnd.android.package-archive"),
        ("apkm", "application/vnd.android.package-archive"),
        ("xpi", "application/x-xpinstall"),
        ("docx", "application/vnd.openxmlformats-officedocument.wordprocessingml.document"),
        ("xlsx", "application/vnd.openxmlformats-officedocument.spreadsheetml.sheet"),
        ("pptx", "application/vnd.openxmlformats-officedocument.presentationml.presentation"),
        ("odt", "application/vnd.oasis.opendocument.text"),
        ("ods", "application/vnd.oasis.opendocument.spreadsheet"),
        ("odp", "application/vnd.oasis.opendocument.presentation"),
        ("jar", "application/java-archive"),
        ("epub", "application/epub+zip"),
    ]
}

/// XML documents named by their extension.
pub open spec fn xml_table() -> Seq<(&'static str, &'static str)> {
    seq![("svg", "image/svg+xml"), ("drawio", "application/xml"), ("kdenlive", "application/xml")]
}

fn xml_entries() -> (v: Vec<(&'static str, &'static str)>)
    ensures
        v@ == xml_table(),
{
    vec![("svg", "image/svg+xml"), ("drawio", "application/xml"), ("kdenlive", "application/xml")]
}

/// The value stored under the lower-cased extension of `p`, or `default`.
pub open spec fn by_extension_or(
    table: Seq<(&'static str, &'static str)>,
    p: Seq<char>,
    default: &'static str,
) -> &'static str {
    match ext_lower_spec(p) {
        Some(e) => match lookup(table, e) {
            Some(m) => m,
            None => default,
        },
        None => default,
    }
}

fn table_or(
    table: &Vec<(&'static str, &'static str)>,
    e: &Option<Vec<char>>,
    default: &'static str,
) -> (res: &'static str)
    ensures
        res == (match e {
            Some(k) => match lookup(table@, k@) {
                Some(m) => m,
                None => default,
            },
            None => default,
        }),
{
    match e {
        Some(k) => match lookup_in(table, k.as_slice()) {
            Some(m) => m,
            None => default,
        },
        None => default,
    }
}

/// The MIME type of a ZIP container, told apart by the extension of `p`.
pub open spec fn zip_subtype_spec(p: Seq<char>) -> &'static str {
    by_extension_or(zip_table(), p, "application/zip")
}

/// The MIME type of a gzip stream: a compressed tarball for `.tgz`, or
/// for `.gz` when the stem ends in `.tar`; plain gzip otherwise.
pub open spec fn gzip_subtype_spec(p: Seq<char>) -> &'static str {
    match ext_lower_spec(p) {
        Some(e) => if e == "tgz"@ {
            "application/x-compressed-tar"
        } else if e == "gz"@ {
            let stem = match file_stem(p) {
                Some(s) => s,
                None => seq![],
            };
            if is_suffix(".tar"@, stem) {
                "application/x-compressed-tar"
            } else {
                "application/gzip"
            }
        } else {
            "application/gzip"
        },
        None => "application/gzip",
    }
}

/// The MIME type of an MZ executable: an installer for `.msi`.
pub open spec fn mz_subtype_spec(p: Seq<char>) -> &'static str {
    match ext_lower_spec(p) {
        Some(e) => if e == "msi"@ {
            "application/x-msi"
        } else {
            "application/x-dosexec"
        },
        None => "application/x-dosexec",
    }
}

/// The MIME type of an ISO base media file, by its brand.
pub open spec fn ftyp_subtype_spec(buf: Seq<u8>) -> &'static str {
    if buf.len() >= 12 && (bytes_at(buf, 8, sig_qt()) || bytes_at(buf, 8, sig_moov())) {
        "video/quicktime"
    } else {
        "video/mp4"
    }
}

/// The MIME type of an XML document, told apart by the extension of `p`.
pub open spec fn xml_subtype_spec(p: Seq<char>) -> &'static str {
    by_extension_or(xml_table(), p, "text/xml")
}

fn zip_subtype(e: &Option<Vec<char>>) -> (res: &'static str)
    ensures
        res == (match e {
            Some(k) => match lookup(zip_table(), k@) {
                Some(m) => m,
                None => "application/zip",
            },
            None => "application/zip",
        }),
{
    let t = zip_entries();
    table_or(&t, e, "application/zip")
}

fn xml_subtype(e: &Option<Vec<char>>) -> (res: &'static str)
    ensures
        res == (match e {
            Some(k) => match lookup(xml_table(), k@) {
                Some(m) => m,
                None => "text/xml",
            },
            None => "text/xml",
        }),
{
    let t = xml_entries();
    table_or(&t, e, "text/xml")
}

fn gzip_subtype(path: &str, e: &Option<Vec<char>>) -> (res: &'static str)
    requires
        match e {
            Some(k) => ext_lower_spec(path@) == Some(k@),
            None => ext_lower_spec(path@).is_none(),
        },
    ensures
        res == gzip_subtype_spec(path@),
{
    if ext_is(e, "tgz") {
        "application/x-compressed-tar"
    } else if ext_is(e, "gz") {
        let p = to_chars(path);
        let stem: Vec<char> = match file_name_of(p.as_slice()) {
            Some(name) => {
                let (s, _ext) = split_name(name.as_slice());
                s
            },
            None => Vec::new(),
        };
        assert(stem@ == (match file_stem(path@) {
            Some(s) => s,
            None => seq![],
        }));
        let tar = to_chars(".tar");
        if ends_with(stem.as_slice(), tar.as_slice()) {
            "application/x-compressed-tar"
        } else {
            "application/gzip"
        }
    } else {
        "application/gzip"
    }
}

fn ftyp_subtype(buf: &[u8]) -> (res: &'static str)
    ensures
        res == ftyp_subtype_spec(buf@),
{
    if buf.len() >= 12 && (bytes_match_at(buf, 8, sig_qt_bytes().as_slice()) || bytes_match_at(
        buf,
        8,
        sig_moov_bytes().as_slice(),
    )) {
        "video/quicktime"
    } else {
        "video/mp4"
    }
}

/// The first 512 bytes of a document that starts with `<`: an HTML page
/// when its lower-cased text names a doctype or `<html`, else an XML
/// document when it names `<?xml` or `<svg`; text that is not UTF-8 counts
/// as `text/xml`.
pub open spec fn markup_subtype_spec(buf: Seq<u8>, p: Seq<char>) -> &'static str {
    let head = buf.take(if buf.len() < 512 { buf.len() as int } else { 512 });
    if valid_utf8(head) {
        let lower = lower_bytes(head);
        if bytes_contain(lower, sig_doctype()) || bytes_contain(lower, sig_html()) {
            "text/html"
        } else if bytes_contain(lower, sig_xml()) || bytes_contain(lower, sig_svg()) {
            xml_subtype_spec(p)
        } else {
            "text/xml"
        }
    } else {
        "text/xml"
    }
}

/// The MIME type that the leading bytes `buf` of the file at `p` reveal,
/// checking the signatures in a fixed order; `None` when none fits.
pub open spec fn magic_spec(buf: Seq<u8>, p: Seq<char>) -> Option<&'static str> {
    if bytes_start(buf, sig_png()) {
        Some("image/png")
    } else if bytes_start(buf, sig_jpeg()) {
        Some("image/jpeg")
    } else if bytes_start(buf, sig_gif()) {
        Some("image/gif")
    } else if bytes_start(buf, sig_riff()) && buf.len() >= 12 && bytes_at(buf, 8, sig_webp()) {
        Some("image/webp")
    } else if bytes_start(buf, sig_tiff_le()) || bytes_start(buf, sig_tiff_be()) {
        Some("image/tiff")
    } else if bytes_start(buf, sig_bmp()) {
        Some("image/bmp")
    } else if bytes_start(buf, sig_pdf()) {
        Some("application/pdf")
    } else if bytes_start(buf, sig_zip()) {
        Some(zip_subtype_spec(p))
    } else if bytes_start(buf, sig_sevenz()) {
        Some("application/x-7z-compressed")
    } else if bytes_start(buf, sig_rar()) {
        Some("application/x-rar-compressed")
    } else if bytes_start(buf, sig_gzip()) {
        Some(gzip_subtype_spec(p))
    } else if bytes_start(buf, sig_rpm()) {
        Some("application/x-rpm")
    } else if bytes_start(buf, sig_elf()) {
        Some("application/x-executable")
    } else if bytes_start(buf, sig_mz()) {
        Some(mz_subtype_spec(p))
    } else if bytes_start(buf, sig_id3()) {
        Some("audio/mpeg")
    } else if bytes_start(buf, sig_flac()) {
        Some("audio/flac")
    } else if bytes_start(buf, sig_ogg()) {
        Some("audio/ogg")
    } else if buf.len() >= 8 && bytes_at(buf, 4, sig_ftyp()) {
        Some(ftyp_subtype_spec(buf))
    } else if buf.len() > 32773 && bytes_at(buf, 32769, sig_iso()) {
        Some("application/x-iso9660-image")
    } else if bytes_start(buf, sig_xml()) {
        Some(xml_subtype_spec(p))
    } else if bytes_start(buf, sig_lt()) {
        Some(markup_subtype_spec(buf, p))
    } else {
        None
    }
}

fn markup_subtype(buf: &[u8], e: &Option<Vec<char>>, path: &str) -> (res: &'static str)
    requires
        match e {
            Some(k) => ext_lower_spec(path@) == Some(k@),
            None => ext_lower_spec(path@).is_none(),
        },
    ensures
        res == markup_subtype_spec(buf@, path@),
{
    let n: usize = if buf.len() < 512 { buf.len() } else { 512 };
    let head = &buf[0..n];
    assert(head@ =~= buf@.take(n as int));
    if is_utf8(head) {
        let lower = lower_byte_vec(head);
        if bytes_contains(lower.as_slice(), &sig_doctype_bytes()) || bytes_contains(
            lower.as_slice(),
            &sig_html_bytes(),
        ) {
            "text/html"
        } else if bytes_contains(lower.as_slice(), &sig_xml_bytes()) || bytes_contains(
            lower.as_slice(),
            &sig_svg_bytes(),
        ) {
            xml_subtype(e)
        } else {
            "text/xml"
        }
    } else {
        "text/xml"
    }
}

/// Recognises a file type from its leading bytes `buf`; the name of the
/// file at `path` tells apart the members of a family (ZIP, gzip, MZ, XML).
pub fn magic_match(buf: &[u8], path: &str) -> (res: Result<String, ()>)
    ensures
        match magic_spec(buf@, path@) {
            Some(m) => res.is_ok() && res.unwrap()@ == m@,
            None => res.is_err(),
        },
{
    let e = ext_lower(path);
    let found: Option<&'static str> = if bytes_starts(buf, &sig_png_bytes()) {
        Some("image/png")
    } else if bytes_starts(buf, &sig_jpeg_bytes()) {
        Some("image/jpeg")
    } else if bytes_starts(buf, &sig_gif_bytes()) {
        Some("image/gif")
    } else if bytes_starts(buf, &sig_riff_bytes()) && buf.len() >= 12 && bytes_match_at(
        buf,
        8,
        sig_webp_bytes().as_slice(),
    ) {
        Some("image/webp")
    } else if bytes_starts(buf, &sig_tiff_le_bytes()) || bytes_starts(buf, &sig_tiff_be_bytes()) {
        Some("image/tiff")
    } else if bytes_starts(buf, &sig_bmp_bytes()) {
        Some("image/bmp")
    } else if bytes_starts(buf, &sig_pdf_bytes()) {
        Some("application/pdf")
    } else if bytes_starts(buf, &sig_zip_bytes()) {
        Some(zip_subtype(&e))
    } else if bytes_starts(buf, &sig_sevenz_bytes()) {
        Some("application/x-7z-compressed")
    } else if bytes_starts(buf, &sig_rar_bytes()) {
        Some("application/x-rar-compressed")
    } else if bytes_starts(buf, &sig_gzip_bytes()) {
        Some(gzip_subtype(path, &e))
    } else if bytes_starts(buf, &sig_rpm_bytes()) {
        Some("application/x-rpm")
    } else if bytes_starts(buf, &sig_elf_bytes()) {
        Some("application/x-executable")
    } else if bytes_starts(buf, &sig_mz_bytes()) {
        if ext_is(&e, "msi") {
            Some("application/x-msi")
        } else {
            Some("application/x-dosexec")
        }
    } else if bytes_starts(buf, &sig_id3_bytes()) {
        Some("audio/mpeg")
    } else if bytes_starts(buf, &sig_flac_bytes()) {
        Some("audio/flac")
    } else if bytes_starts(buf, &sig_ogg_bytes()) {
        Some("audio/ogg")
    } else if buf.len() >= 8 && bytes_match_at(buf, 4, sig_ftyp_bytes().as_slice()) {
        Some(ftyp_subtype(buf))
    } else if buf.len() > 32773 && bytes_match_at(buf, 32769, sig_iso_bytes().as_slice()) {
        Some("application/x-iso9660-image")
    } else if bytes_starts(buf, &sig_xml_bytes()) {
        Some(xml_subtype(&e))
    } else if bytes_starts(buf, &sig_lt_bytes()) {
        Some(markup_subtype(buf, &e, path))
    } else {
        None
    };
    match found {
        Some(m) => Ok(String::from_str(m)),
        None => Err(()),
    }
}

/// The MIME type of a file, from its leading bytes when they reveal one,
/// else from its extension.
pub open spec fn detect_spec(path: Seq<char>, head: Seq<u8>) -> Option<&'static str> {
    if head.len() > 0 && magic_spec(head, path).is_some() {
        magic_spec(head, path)
    } else {
        extension_mime(path)
    }
}

/// Detects the MIME type of the file at `path` whose leading bytes (up to
/// a read's worth; none when it could not be read or is empty) are `head`:
/// by its content signature first, by its extension otherwise.
pub fn detect(path: &str, head: &[u8]) -> (res: Option<String>)
    ensures
        match detect_spec(path@, head@) {
            Some(m) => res.is_some() && res.unwrap()@ == m@,
            None => res.is_none(),
        },
{
    if head.len() > 0 {
        if let Ok(m) = magic_match(head, path) {
            return Some(m);
        }
    }
    detect_by_extension(path)
}

/// What a MIME pattern matches, over its parts: a type always matches
/// itself; `family/*` matches every `family/sub`; and a pattern that is
/// neither the type nor a `/*` wildcard matches nothing else.
pub proof fn lemma_mime_pattern_law(d: Seq<char>, family: Seq<char>, sub: Seq<char>, other: Seq<char>)
    ensures
        mime_pattern_matches(d, d),
        mime_pattern_matches(family + seq!['/'] + sub, family + seq!['/', '*']),
        (other != d && !is_suffix(seq!['/', '*'], other)) ==> !mime_pattern_matches(d, other),
        !is_prefix(family + seq!['/'], d) ==> !mime_pattern_matches(d, family + seq!['/', '*']) || d
            == family + seq!['/', '*'],
{
    let pat = family + seq!['/', '*'];
    let full = family + seq!['/'] + sub;
    assert(pat.skip(pat.len() - 2) =~= seq!['/', '*']);
    assert(pat.take(pat.len() - 2) =~= family);
    assert(full.take(family.len() as int) =~= family);
    assert(full[family.len() as int] == '/');
    if !is_prefix(family + seq!['/'], d) && mime_pattern_matches(d, pat) && d != pat {
        assert(is_prefix(family, d) && d.len() > family.len() && d[family.len() as int] == '/');
        assert(d.take(family.len() as int + 1) =~= family + seq!['/']);
    }
}

/// A byte that differs at a position both sequences have rules out a
/// prefix.
proof fn lemma_byte_differs(s: Seq<u8>, q: Seq<u8>, i: int)
    ensures
        (0 <= i < q.len() && i < s.len() && s[i] != q[i]) ==> !bytes_start(s, q),
{
    if 0 <= i < q.len() && i < s.len() && s[i] != q[i] && bytes_start(s, q) {
        assert(s.subrange(0, q.len() as int)[i] == s[i]);
    }
}

/// Whether `s` is ruled out, by its first or second byte, from starting
/// with `q`.
proof fn lemma_not_starting(s: Seq<u8>)
    ensures
        forall|q: Seq<u8>|
            #![trigger bytes_start(s, q)]
            (q.len() >= 1 && s.len() >= 1 && s[0] != q[0]) ==> !bytes_start(s, q),
        forall|q: Seq<u8>|
            #![trigger bytes_start(s, q)]
            (q.len() >= 2 && s.len() >= 2 && s[1] != q[1]) ==> !bytes_start(s, q),
{
    assert forall|q: Seq<u8>| (q.len() >= 1 && s.len() >= 1 && s[0] != q[0]) implies !bytes_start(
        s,
        q,
    ) by {
        lemma_byte_differs(s, q, 0);
    }
    assert forall|q: Seq<u8>| (q.len() >= 2 && s.len() >= 2 && s[1] != q[1]) implies !bytes_start(
        s,
        q,
    ) by {
        lemma_byte_differs(s, q, 1);
    }
}

/// Every format with a fixed signature is told by it, whatever follows it
/// and whatever the file is called: PNG, JPEG, GIF, TIFF (both byte
/// orders), BMP, PDF, 7-Zip, RAR, RPM, ELF, MP3 (ID3), FLAC and Ogg each
/// give their own registered MIME type. The signatures are written out
/// here byte by byte.
pub proof fn lemma_signatures_name_formats(t: Seq<u8>, p: Seq<char>)
    ensures
        magic_spec(seq![0x89u8, 0x50, 0x4E, 0x47] + t, p) == Some("image/png"),
        magic_spec(seq![0xFFu8, 0xD8, 0xFF] + t, p) == Some("image/jpeg"),
        magic_spec(seq![0x47u8, 0x49, 0x46, 0x38] + t, p) == Some("image/gif"),
        magic_spec(seq![0x49u8, 0x49, 0x2A, 0x00] + t, p) == Some("image/tiff"),
        magic_spec(seq![0x4Du8, 0x4D, 0x00, 0x2A] + t, p) == Some("image/tiff"),
        magic_spec(seq![0x42u8, 0x4D] + t, p) == Some("image/bmp"),
        magic_spec(seq![0x25u8, 0x50, 0x44, 0x46] + t, p) == Some("application/pdf"),
        magic_spec(seq![0x37u8, 0x7A, 0xBC, 0xAF] + t, p) == Some("application/x-7z-compressed"),
        magic_spec(seq![0x52u8, 0x61, 0x72, 0x21] + t, p) == Some("application/x-rar-compressed"),
        magic_spec(seq![0xEDu8, 0xAB, 0xEE, 0xDB] + t, p) == Some("application/x-rpm"),
        magic_spec(seq![0x7Fu8, 0x45, 0x4C, 0x46] + t, p) == Some("application/x-executable"),
        magic_spec(seq![0x49u8, 0x44, 0x33] + t, p) == Some("audio/mpeg"),
        magic_spec(seq![0x66u8, 0x4C, 0x61, 0x43] + t, p) == Some("audio/flac"),
        magic_spec(seq![0x4Fu8, 0x67, 0x67, 0x53] + t, p) == Some("audio/ogg"),
{
    let png = seq![0x89u8, 0x50, 0x4E, 0x47] + t;
    let jpeg = seq![0xFFu8, 0xD8, 0xFF] + t;
    let gif = seq![0x47u8, 0x49, 0x46, 0x38] + t;
    let tle = seq![0x49u8, 0x49, 0x2A, 0x00] + t;
    let tbe = seq![0x4Du8, 0x4D, 0x00, 0x2A] + t;
    let bmp = seq![0x42u8, 0x4D] + t;
    let pdf = seq![0x25u8, 0x50, 0x44, 0x46] + t;
    let sz = seq![0x37u8, 0x7A, 0xBC, 0xAF] + t;
    let rar = seq![0x52u8, 0x61, 0x72, 0x21] + t;
    let rpm = seq![0xEDu8, 0xAB, 0xEE, 0xDB] + t;
    let elf = seq![0x7Fu8, 0x45, 0x4C, 0x46] + t;
    let id3 = seq![0x49u8, 0x44, 0x33] + t;
    let flac = seq![0x66u8, 0x4C, 0x61, 0x43] + t;
    let ogg = seq![0x4Fu8, 0x67, 0x67, 0x53] + t;
    assert(png.subrange(0, 4) =~= sig_png());
    assert(jpeg.subrange(0, 3) =~= sig_jpeg());
    assert(gif.subrange(0, 4) =~= sig_gif());
    assert(tle.subrange(0, 4) =~= sig_tiff_le());
    assert(tbe.subrange(0, 4) =~= sig_tiff_be());
    assert(bmp.subrange(0, 2) =~= sig_bmp());
    assert(pdf.subrange(0, 4) =~= sig_pdf());
    assert(sz.subrange(0, 4) =~= sig_sevenz());
    assert(rar.subrange(0, 4) =~= sig_rar());
    assert(rpm.subrange(0, 4) =~= sig_rpm());
    assert(elf.subrange(0, 4) =~= sig_elf());
    assert(id3.subrange(0, 3) =~= sig_id3());
    assert(flac.subrange(0, 4) =~= sig_flac());
    assert(ogg.subrange(0, 4) =~= sig_ogg());
    lemma_not_starting(png);
    lemma_not_starting(jpeg);
    lemma_not_starting(gif);
    lemma_not_starting(tle);
    lemma_not_starting(tbe);
    lemma_not_starting(bmp);
    lemma_not_starting(pdf);
    lemma_not_starting(sz);
    lemma_not_starting(rar);
    lemma_not_starting(rpm);
    lemma_not_starting(elf);
    lemma_not_starting(id3);
    lemma_not_starting(flac);
    lemma_not_starting(ogg);
}

} // verus!
