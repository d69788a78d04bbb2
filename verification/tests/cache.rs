//! The cache file.

use registry_index::cache::{parse_ranges, CacheError, SummariesCache, CURRENT_CACHE_VERSION};
use registry_index::version::Version;

fn version(text: &str) -> Version {
    Version::parse(text).unwrap()
}

fn refusal(data: &[u8], current: &str) -> CacheError {
    match SummariesCache::parse(data, current) {
        Ok(_) => panic!("not refused"),
        Err(e) => e,
    }
}

#[test]
fn the_format_is_fixed() {
    let cache = SummariesCache {
        versions: vec![
            (version("1.0.0"), &b"{\"a\":1}"[..]),
            (version("1.1.0-x"), &b"{}"[..]),
        ],
    };
    assert_eq!(
        cache.serialize("abc"),
        b"\x01abc\x001.0.0\x00{\"a\":1}\x001.1.0-x\x00{}\x00".to_vec()
    );
    assert_eq!(SummariesCache { versions: vec![] }.serialize(""), vec![CURRENT_CACHE_VERSION, 0]);
}

#[test]
fn what_was_written_is_read() {
    let cache = SummariesCache {
        versions: vec![
            (version("1.0.0+m"), &b"{\"name\":\"a\"}"[..]),
            (version("1.1.0-x"), &b""[..]),
            (version("0.0.1"), &b"\n"[..]),
        ],
    };
    let bytes = cache.serialize("0123abcd");
    let read = SummariesCache::parse(&bytes, "0123abcd").unwrap();
    let texts: Vec<(String, Vec<u8>)> =
        read.versions.iter().map(|(v, d)| (v.to_text(), d.to_vec())).collect();
    assert_eq!(
        texts,
        vec![
            ("1.0.0+m".to_string(), b"{\"name\":\"a\"}".to_vec()),
            ("1.1.0-x".to_string(), b"".to_vec()),
            ("0.0.1".to_string(), b"\n".to_vec()),
        ]
    );
    assert_eq!(read.serialize("0123abcd"), bytes);
}

#[test]
fn places_of_blobs_are_found() {
    let data = b"\x01s\x001.0.0\x00ab\x002.0.0\x00cde\x00";
    let list = parse_ranges(data, "s").unwrap();
    assert_eq!(list.len(), 2);
    assert_eq!((list[0].start, list[0].end), (9, 11));
    assert_eq!((list[1].start, list[1].end), (18, 21));
    assert_eq!(list[1].version.to_text(), "2.0.0");
}

#[test]
fn a_last_blob_needs_no_end() {
    let read = SummariesCache::parse(b"\x01s\x001.0.0\x00ab", "s").unwrap();
    assert_eq!(read.versions.len(), 1);
    assert_eq!(read.versions[0].1, &b"ab"[..]);
}

#[test]
fn a_cache_for_another_state_is_out_of_date() {
    let bytes = SummariesCache { versions: vec![] }.serialize("old");
    match refusal(&bytes, "new") {
        CacheError::OutOfDate { current, cached } => {
            assert_eq!(current, "new");
            assert_eq!(cached, "old");
        }
        e => panic!("{:?}", e),
    }
}

#[test]
fn an_empty_file_is_malformed() {
    assert!(matches!(refusal(b"", "x"), CacheError::MalformedCache));
}

#[test]
fn another_format_is_refused() {
    assert!(matches!(refusal(b"\x02x\0", "x"), CacheError::DifferentVersion));
    assert!(matches!(refusal(b"\x00", "x"), CacheError::DifferentVersion));
}

#[test]
fn a_file_that_ends_early_is_malformed() {
    assert!(matches!(refusal(b"\x01", ""), CacheError::MalformedFile));
    assert!(matches!(refusal(b"\x01x\x001.0.0", "x"), CacheError::MalformedFile));
    assert!(matches!(refusal(b"\x01x\x001.0.0\x00", "x"), CacheError::MalformedFile));
}

#[test]
fn texts_have_to_be_utf8() {
    assert!(matches!(refusal(b"\x01\xff\x00", "x"), CacheError::InvalidUtf8));
    assert!(matches!(refusal(b"\x01x\x00\xff\xfe\x00{}\x00", "x"), CacheError::InvalidUtf8));
}

#[test]
fn versions_have_to_be_readable() {
    match refusal(b"\x01x\x00one\x00{}\x00", "x") {
        CacheError::InvalidVersion(message) => {
            assert_eq!(message, "Error parsing major identifier")
        }
        e => panic!("{:?}", e),
    }
}
