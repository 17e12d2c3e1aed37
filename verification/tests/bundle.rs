use std::io::Write;

use ttb_aux::bundle::{BundleError, OpenResult, Ttbv1FsBundle};
use ttb_aux::header::{HeaderError, TTBv1Header};
use ttb_aux::index::{parse_u64_bytes, TTBFileIndex};

fn gz(data: &[u8]) -> Vec<u8> {
    let mut enc = flate2::write::GzEncoder::new(Vec::new(), flate2::Compression::default());
    enc.write_all(data).unwrap();
    enc.finish().unwrap()
}

/// A header whose bytes 30..34 hold `gzip_len` and 34..38 hold the length
/// the reader takes for the index region.
fn header(index_start: u64, gzip_len: u32, take_len: u32, digest: &[u8; 32]) -> Vec<u8> {
    let mut h = Vec::new();
    h.extend_from_slice(b"tectonicbundle");
    h.extend_from_slice(&1u64.to_le_bytes());
    h.extend_from_slice(&index_start.to_le_bytes());
    h.extend_from_slice(&gzip_len.to_le_bytes());
    h.extend_from_slice(&take_len.to_le_bytes());
    h.extend_from_slice(digest);
    h
}

#[test]
fn header_round_trip() {
    let digest = [7u8; 32];
    let h = header(1234, 56, 78, &digest);
    let parsed = TTBv1Header::parse(&h).unwrap();
    assert_eq!(parsed.index_start, 1234);
    assert_eq!(parsed.index_gzip_len, 56);
    assert_eq!(parsed.index_real_len, 78);
    assert_eq!(parsed.digest, digest.to_vec());
}

#[test]
fn header_rejects_bad_signature() {
    let digest = [0u8; 32];
    let mut h = header(0, 0, 0, &digest);
    h[0] = b'x';
    assert_eq!(TTBv1Header::parse(&h), Err(HeaderError::NotABundle));
}

#[test]
fn header_rejects_wrong_version() {
    let digest = [0u8; 32];
    let mut h = header(0, 0, 0, &digest);
    h[14..22].copy_from_slice(&2u64.to_le_bytes());
    assert_eq!(TTBv1Header::parse(&h), Err(HeaderError::WrongVersion));
}

#[test]
fn header_short_read() {
    assert_eq!(TTBv1Header::parse(&[0u8; 69]), Err(HeaderError::ShortRead));
}

#[test]
fn parse_u64_accepts_plus_and_rejects_overflow() {
    assert_eq!(parse_u64_bytes(b"+123"), Some(123));
    assert_eq!(parse_u64_bytes(b"18446744073709551615"), Some(u64::MAX));
    assert_eq!(parse_u64_bytes(b"18446744073709551616"), None);
    assert_eq!(parse_u64_bytes(b""), None);
    assert_eq!(parse_u64_bytes(b"12x"), None);
}

#[test]
fn index_initialize_sorts_by_path() {
    let body = b"[FILELIST]\n0 10 20 /tex/x.tex h1\n30 10 20 /other/x.tex h2\n";
    let mut idx = TTBFileIndex::new();
    idx.initialize(body).unwrap();
    assert_eq!(idx.len(), 2);
    assert_eq!(idx.content[0].path, b"/other/x.tex".to_vec());
    assert_eq!(idx.content[1].path, b"/tex/x.tex".to_vec());
    assert_eq!(idx.content[0].name, b"x.tex".to_vec());
}

#[test]
fn index_rejects_malformed_row() {
    let body = b"[FILELIST]\n0 10 /short/line h\n";
    let mut idx = TTBFileIndex::new();
    assert!(idx.initialize(body).is_err());
    assert_eq!(idx.len(), 0);
}

#[test]
fn index_rejects_path_without_slash() {
    let body = b"[FILELIST]\n0 10 20 noslash h1\n";
    let mut idx = TTBFileIndex::new();
    assert!(idx.initialize(body).is_err());
}

#[test]
fn index_nohash_is_absent() {
    let body = b"[FILELIST]\n0 10 20 /a/b.tex nohash\n";
    let mut idx = TTBFileIndex::new();
    idx.initialize(body).unwrap();
    assert_eq!(idx.content[0].hash, None);
}

#[test]
fn search_section_and_queries() {
    let body = b"[FILELIST]\n0 10 20 /tex/x.tex h1\n30 10 20 /other/x.tex h2\n[SEARCH:MAIN]\n/tex//\n";
    let mut idx = TTBFileIndex::new();
    idx.initialize(body).unwrap();
    let hit = idx.search(b"x.tex").unwrap();
    assert_eq!(hit.path, b"/tex/x.tex".to_vec());
    let qualified = idx.search(b"other/x.tex").unwrap();
    assert_eq!(qualified.path, b"/other/x.tex".to_vec());
    assert!(idx.search(b"z.tex").is_none());
}

#[test]
fn search_rule_priority() {
    let body = b"[FILELIST]\n0 1 1 /a/x.tex h\n2 1 1 /b/x.tex h\n[SEARCH:MAIN]\n/a//\n/b//\n";
    let mut idx = TTBFileIndex::new();
    idx.initialize(body).unwrap();
    assert_eq!(idx.search(b"x.tex").unwrap().path, b"/a/x.tex".to_vec());
}

#[test]
fn search_alphabetic_tie_break() {
    let body = b"[FILELIST]\n0 1 1 /pkg/m/x.tex h\n2 1 1 /pkg/n/x.tex h\n[SEARCH:MAIN]\n/pkg//\n";
    let mut idx = TTBFileIndex::new();
    idx.initialize(body).unwrap();
    assert_eq!(idx.search(b"x.tex").unwrap().path, b"/pkg/m/x.tex".to_vec());
}

#[test]
fn search_parent_qualified_uniqueness() {
    let body = b"[FILELIST]\n0 1 1 /p/m/x.tex h\n2 1 1 /q/m/x.tex h\n4 1 1 /q/n/x.tex h\n";
    let mut idx = TTBFileIndex::new();
    idx.initialize(body).unwrap();
    // two candidates end with m/x.tex: ambiguous, a miss
    assert!(idx.search(b"m/x.tex").is_none());
    // exactly one ends with n/x.tex
    assert_eq!(idx.search(b"n/x.tex").unwrap().path, b"/q/n/x.tex".to_vec());
}

#[test]
fn search_is_idempotent() {
    let body = b"[FILELIST]\n0 1 1 /a/x.tex h\n[SEARCH:MAIN]\n/a//\n";
    let mut idx = TTBFileIndex::new();
    idx.initialize(body).unwrap();
    let first = idx.search(b"x.tex").map(|i| i.path);
    let second = idx.search(b"x.tex").map(|i| i.path);
    assert_eq!(first, second);
    let miss1 = idx.search(b"zz.tex").is_none();
    let miss2 = idx.search(b"zz.tex").is_none();
    assert!(miss1 && miss2);
}

#[test]
fn search_unmatched_directory_is_miss() {
    // the file exists but no rule covers its directory
    let body = b"[FILELIST]\n0 1 1 /hidden/x.tex h\n[SEARCH:MAIN]\n/tex//\n";
    let mut idx = TTBFileIndex::new();
    idx.initialize(body).unwrap();
    assert!(idx.search(b"x.tex").is_none());
}

#[test]
fn search_exact_parent_rule() {
    // a rule without the double slash must equal the whole parent directory
    let body = b"[FILELIST]\n0 1 1 /tex/sub/x.tex h\n2 1 1 /tex/x.tex h\n[SEARCH:MAIN]\n/tex/\n";
    let mut idx = TTBFileIndex::new();
    idx.initialize(body).unwrap();
    assert_eq!(idx.search(b"x.tex").unwrap().path, b"/tex/x.tex".to_vec());
}

/// Build a whole bundle file: payloads first, then the compressed index.
fn build_bundle(payloads: &[(&str, &[u8])], rules: &[&str]) -> Vec<u8> {
    let mut body = Vec::new();
    let mut filelist = String::from("[FILELIST]\n");
    for (path, content) in payloads {
        let z = gz(content);
        let start = 70 + body.len();
        filelist.push_str(&format!(
            "{} {} {} {} nohash\n",
            start,
            z.len(),
            content.len(),
            path
        ));
        body.extend_from_slice(&z);
    }
    let mut index_text = filelist;
    index_text.push_str("[SEARCH:MAIN]\n");
    for r in rules {
        index_text.push_str(r);
        index_text.push('\n');
    }
    let zindex = gz(index_text.as_bytes());
    let index_start = 70 + body.len();
    // bytes 34..38 are what the reader takes as the compressed length
    let digest = [9u8; 32];
    let mut file = header(
        index_start as u64,
        index_text.len() as u32,
        zindex.len() as u32,
        &digest,
    );
    file.extend_from_slice(&body);
    file.extend_from_slice(&zindex);
    file
}

#[test]
fn bundle_open_name_returns_decompressed_payload() {
    let data = build_bundle(&[("/tex/x.tex", b"hello bundle")], &["/tex//"]);
    let mut bundle = Ttbv1FsBundle::new(data);
    match bundle.input_open_name(b"x.tex") {
        OpenResult::Found(v) => assert_eq!(v, b"hello bundle".to_vec()),
        other => panic!("expected payload, got {:?}", other),
    }
    assert_eq!(bundle.input_open_name(b"missing.tex"), OpenResult::NotAvailable);
}

#[test]
fn bundle_all_files_and_digest() {
    let data = build_bundle(&[("/b/y.tex", b"y"), ("/a/x.tex", b"x")], &["/a//"]);
    let mut bundle = Ttbv1FsBundle::new(data);
    // load the index
    let _ = bundle.input_open_name(b"x.tex");
    let files = bundle.all_files();
    assert_eq!(files, vec![b"/a/x.tex".to_vec(), b"/b/y.tex".to_vec()]);
    assert_eq!(bundle.get_digest().unwrap(), vec![9u8; 32]);
}

#[test]
fn bundle_wrong_version_fails_initialisation() {
    let mut data = build_bundle(&[("/tex/x.tex", b"hi")], &["/tex//"]);
    data[14..22].copy_from_slice(&2u64.to_le_bytes());
    let mut bundle = Ttbv1FsBundle::new(data);
    assert_eq!(
        bundle.input_open_name(b"x.tex"),
        OpenResult::Failed(BundleError::Header(HeaderError::WrongVersion))
    );
}

#[test]
fn bundle_corrupt_index_is_decode_error() {
    let digest = [0u8; 32];
    let mut data = header(70, 4, 4, &digest);
    data.extend_from_slice(b"nogz");
    let mut bundle = Ttbv1FsBundle::new(data);
    assert_eq!(
        bundle.input_open_name(b"x.tex"),
        OpenResult::Failed(BundleError::Decode)
    );
}

#[test]
fn bundle_malformed_index_is_index_error() {
    let digest = [0u8; 32];
    let ztext = gz(b"[FILELIST]\nnot a valid row\n");
    let mut data = header(70, 26, ztext.len() as u32, &digest);
    data.extend_from_slice(&ztext);
    let mut bundle = Ttbv1FsBundle::new(data);
    assert_eq!(
        bundle.input_open_name(b"x.tex"),
        OpenResult::Failed(BundleError::Index(ttb_aux::index::IndexError::Malformed))
    );
}
