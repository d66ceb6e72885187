use rust_my_doc_search::app_state::AppState;
use rust_my_doc_search::dao::IndexFile;
use rust_my_doc_search::file_scanner::file_extractor::{
    decrement_counter, expand_tree, increment_counter, FsTree, PendingCounter, ScanEvent,
};
use rust_my_doc_search::file_scanner::file_text_extractor::{
    decode_text_bytes, extract_plan, get_ext_name, is_text_bytes, is_utf8, ExtractPlan, FileText,
};
use rust_my_doc_search::file_scanner::is_compress_file;
use rust_my_doc_search::sys::global::{to_global_result, GlobalError};

#[test]
pub fn test_is_compress_file() {
    let b = is_compress_file("c:/test/测试.tar.gz");
    println!("is_compress_file:{}", b);
    assert!(b);
}

#[test]
fn test_is_compress_file_more() {
    assert!(is_compress_file("a/b/archive.ZIP"));
    assert!(is_compress_file("pkg.rpm"));
    assert!(!is_compress_file("notes.txt"));
    assert!(!is_compress_file("zip"));
    assert!(!is_compress_file("dir.zip/file"));
}

fn events_shape(events: &[ScanEvent]) -> (usize, usize) {
    let paths = events.iter().filter(|e| matches!(e, ScanEvent::PathFound)).count();
    let sentinels = events.iter().filter(|e| matches!(e, ScanEvent::Sentinel)).count();
    (paths, sentinels)
}

#[test]
fn test_expand_archive_tree() {
    // A root directory holding one archive with two files inside:
    // the root, the archive and both unpacked files are visible, the
    // archive's output directory is not, and the sentinel comes last.
    let root = FsTree::Dir {
        children: vec![FsTree::Archive { unpacked: Some(vec![FsTree::File, FsTree::File]) }],
    };
    let events = expand_tree(root);
    let (paths, sentinels) = events_shape(&events);
    assert_eq!(paths, 4);
    assert_eq!(sentinels, 1);
    assert!(matches!(events.last().unwrap(), ScanEvent::Sentinel));
}

#[test]
fn test_expand_plain_file_and_archive() {
    let root = FsTree::Dir {
        children: vec![
            FsTree::File,
            FsTree::Archive { unpacked: Some(vec![FsTree::File, FsTree::File]) },
        ],
    };
    let events = expand_tree(root);
    let (paths, sentinels) = events_shape(&events);
    assert_eq!(paths, 5);
    assert_eq!(sentinels, 1);
    assert!(matches!(events.last().unwrap(), ScanEvent::Sentinel));
}

#[test]
fn test_expand_empty_dir() {
    let events = expand_tree(FsTree::Dir { children: vec![] });
    assert_eq!(events.len(), 2);
    assert!(matches!(events[0], ScanEvent::PathFound));
    assert!(matches!(events[1], ScanEvent::Sentinel));
}

#[test]
fn test_expand_symlink_and_failed_archive() {
    let root = FsTree::Dir {
        children: vec![
            FsTree::Symlink { target: Box::new(FsTree::File) },
            FsTree::Archive { unpacked: None },
        ],
    };
    // the link itself is invisible, its target and the failed archive count
    let events = expand_tree(root);
    let (paths, sentinels) = events_shape(&events);
    assert_eq!(paths, 3);
    assert_eq!(sentinels, 1);
    assert!(matches!(events.last().unwrap(), ScanEvent::Sentinel));
}

#[test]
fn test_counters() {
    let mut counter = PendingCounter { count: 0 };
    increment_counter(&mut counter);
    increment_counter(&mut counter);
    assert_eq!(counter.count, 2);
    assert!(!decrement_counter(&mut counter));
    assert!(decrement_counter(&mut counter));
    assert_eq!(counter.count, 0);
}

#[test]
fn test_get_ext_name() {
    assert_eq!(get_ext_name("a/b.tar.GZ"), Some("gz".to_string()));
    assert_eq!(get_ext_name("noext"), None);
    assert_eq!(get_ext_name("dir.x/file"), None);
    assert_eq!(get_ext_name(".hidden"), None);
    assert_eq!(get_ext_name("c:\\docs\\报告.DOCX"), Some("docx".to_string()));
}

#[test]
fn test_is_utf8() {
    assert!(is_utf8("héllo".as_bytes()));
    assert!(is_utf8("中文 text".as_bytes()));
    assert!(is_utf8(&[]));
    assert!(is_utf8(&[0xf4, 0x8f, 0xbf, 0xbf]));
    assert!(!is_utf8(&[0xff, 0xfe, 0x00]));
    // overlong two-byte encoding of '/'
    assert!(!is_utf8(&[0xc0, 0xaf]));
    // a surrogate codepoint
    assert!(!is_utf8(&[0xed, 0xa0, 0x80]));
    // beyond the last scalar
    assert!(!is_utf8(&[0xf4, 0x90, 0x80, 0x80]));
    // truncated three-byte sequence
    assert!(!is_utf8(&[0xe4, 0xb8]));
    // bare continuation byte
    assert!(!is_utf8(&[0x80]));
}

#[test]
fn test_decode_text_bytes() {
    assert_eq!(decode_text_bytes("héllo".as_bytes()), "héllo");
    // "中文" in the GBK encoding
    assert_eq!(decode_text_bytes(&[0xd6, 0xd0, 0xce, 0xc4]), "中文");
    // neither valid UTF-8 nor valid GBK
    assert_eq!(decode_text_bytes(&[0xff, 0xff]), "");
}

#[test]
fn test_is_text_bytes() {
    assert!(is_text_bytes("this is an ordinary line of text".as_bytes()));
    let mut binary = vec![0u8; 16];
    binary.extend_from_slice(b"text");
    assert!(!is_text_bytes(&binary));
}

#[test]
fn test_extract_plan() {
    assert_eq!(extract_plan("report.docx", false), ExtractPlan::OfficeDoc);
    assert_eq!(extract_plan("photo.PNG", false), ExtractPlan::EmptyText);
    assert_eq!(extract_plan("bundle.zip", false), ExtractPlan::EmptyText);
    assert_eq!(extract_plan("notes.txt", false), ExtractPlan::RawText);
    assert_eq!(extract_plan("anything", true), ExtractPlan::EmptyText);
    assert_eq!(extract_plan("noext", false), ExtractPlan::EmptyText);
}

#[test]
fn test_file_text_builders() {
    let ok = FileText::done("a.txt".to_string(), "hello".to_string());
    assert!(ok.success);
    assert_eq!(ok.text, "hello");
    assert_eq!(ok.err, "");
    let bad = FileText::failed("a.bin".to_string(), "unreadable".to_string());
    assert!(!bad.success);
    assert_eq!(bad.text, "");
    assert_eq!(bad.err, "unreadable");
}

#[test]
fn test_index_file_new() {
    let rec = IndexFile::new("C:\\a\\b.txt".to_string(), 7);
    assert_eq!(rec.path, "C:/a/b.txt");
    assert_eq!(rec.name, "b.txt");
    assert_eq!(rec.id, 0);
    assert_eq!(rec.status, 0);
    assert_eq!(rec.index_dir_id, 7);
}

#[test]
fn test_global_error() {
    let e = GlobalError::new("boom".to_string());
    assert_eq!(e.message(), "boom");
    let r: Result<i32, GlobalError> = to_global_result(Err::<i32, String>("bad".to_string()));
    assert_eq!(r.err().unwrap().msg, "bad");
    let ok: Result<i32, GlobalError> = to_global_result(Ok::<i32, String>(5));
    assert_eq!(ok.unwrap(), 5);
}

#[test]
fn test_app_state() {
    let mut state = AppState::new();
    state.task_started();
    state.task_started();
    assert_eq!(state.async_task_num, 2);
    state.task_finished();
    assert_eq!(state.async_task_num, 1);
}
