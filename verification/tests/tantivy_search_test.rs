use rust_my_doc_search::tantivy_search::{
    self, delete_by_index_dir_id, insert_doc, insert_doc_list, normalize_text, search_doc,
    IndexDocument,
};

fn new_ram_index() -> tantivy::Index {
    let mut builder = tantivy::schema::Schema::builder();
    let indexing = tantivy::schema::TextFieldIndexing::default()
        .set_tokenizer("jieba")
        .set_index_option(tantivy::schema::IndexRecordOption::WithFreqsAndPositions);
    let options = tantivy::schema::TextOptions::default()
        .set_indexing_options(indexing)
        .set_stored();
    builder.add_i64_field("index_dir_id", tantivy::schema::INDEXED);
    builder.add_text_field("file_name", options.clone());
    builder.add_text_field("file_content", options);
    builder.add_text_field(
        "file_path",
        tantivy::schema::STRING | tantivy::schema::STORED,
    );
    let index = tantivy::Index::create_in_ram(builder.build());
    index
        .tokenizers()
        .register("jieba", tantivy_jieba::JiebaTokenizer::new());
    index
}

#[test]
pub fn test_write() {
    let mut index = new_ram_index();
    let doc = IndexDocument {
        index_dir_id: 1,
        file_path: r"D:\yiscn\20231102四川省环境政策研究与规划院华为云资源汇总.docx"
            .replace("\\", "/"),
        file_name: "20231102四川省环境政策研究与规划院华为云资源汇总.docx".to_string(),
        file_content: "租赁华为云资源情况".to_string(),
    };
    insert_doc(&mut index, &doc).unwrap();
}

#[test]
pub fn test_search() {
    println!("查询");
    let index = new_ram_index();
    let r = search_doc(&index, "file_name:大文件成都亿橙", 1, 10).unwrap();
    for line in r {
        println!("{}", line.file_path);
    }
}

#[test]
fn test_query_round_trip() {
    // writing then committing makes the document retrievable by a token
    // of its name or content within the partition; deleting the
    // partition makes it unretrievable.
    let mut index = new_ram_index();
    let doc = IndexDocument {
        index_dir_id: 1,
        file_path: "D:/yiscn/华为云资源汇总.docx".to_string(),
        file_name: "华为云资源汇总.docx".to_string(),
        file_content: "租赁华为云资源情况".to_string(),
    };
    insert_doc_list(&mut index, &vec![doc]).unwrap();

    let by_content = search_doc(&index, "租赁", 1, 10).unwrap();
    assert_eq!(by_content.len(), 1);
    // the partition field is indexed but not stored, so a retrieved
    // document carries the record default there
    assert_eq!(by_content[0].index_dir_id, 0);
    assert_eq!(by_content[0].file_path, "D:/yiscn/华为云资源汇总.docx");
    assert_eq!(by_content[0].file_content, "租赁华为云资源情况");

    let by_name = search_doc(&index, "资源", 1, 10).unwrap();
    assert!(!by_name.is_empty());

    delete_by_index_dir_id(&mut index, 1).unwrap();
    let after = search_doc(&index, "租赁", 1, 10).unwrap();
    assert!(after.is_empty());
}

#[test]
fn test_insert_without_schema_field() {
    // an index whose schema lacks the engine's fields refuses inserts
    let builder = tantivy::schema::Schema::builder();
    let mut index = tantivy::Index::create_in_ram(builder.build());
    let doc = IndexDocument::new();
    let r = insert_doc(&mut index, &doc);
    assert!(r.is_err());
    assert!(!r.err().unwrap().msg.is_empty());
}

#[test]
fn test_split_content() {
    // a chunk closes at a terminator once it has reached the length
    let parts = IndexDocument::split_content("A. B.", 1);
    assert_eq!(parts, vec!["A.".to_string(), " B.".to_string()]);
}

#[test]
fn test_split_content_runaway_guard() {
    let parts = IndexDocument::split_content("aaaa", 1);
    assert_eq!(parts, vec!["aaaa".to_string()]);
    let parts2 = IndexDocument::split_content("aaaaaa", 1);
    assert_eq!(parts2, vec!["aaaa".to_string(), "aa".to_string()]);
}

#[test]
fn test_split_content_round_trip() {
    let text = "第一句。第二句，第三句!尾巴";
    let parts = IndexDocument::split_content(text, 2);
    let rebuilt: String = parts.concat();
    assert_eq!(rebuilt, text);
    for part in parts {
        assert!(part.chars().count() <= 2 * 2 + 2);
    }
}

#[test]
fn test_normalize_text() {
    assert_eq!(normalize_text("a\r\nb  c\t d"), "ab c d");
    assert_eq!(normalize_text(""), "");
    // the Unicode space separators collapse too
    assert_eq!(normalize_text("a\u{3000}\u{3000}b"), "a b");
    assert_eq!(normalize_text("a\u{a0}\u{2009}b"), "a b");
}

#[test]
fn test_split_to_list_empty_content() {
    // a file without extractable text still yields one document, so it
    // stays findable by its name
    let docs = IndexDocument::split_to_list("C:/pics/photo.png".to_string(), "".to_string(), 2);
    assert_eq!(docs.len(), 1);
    assert_eq!(docs[0].file_name, "photo.png");
    assert_eq!(docs[0].file_content, "");
    assert_eq!(docs[0].index_dir_id, 2);
}

#[test]
fn test_split_to_list() {
    let docs = IndexDocument::split_to_list(
        "C:\\dir\\某文件.txt".to_string(),
        "第一句。\n第二句".to_string(),
        9,
    );
    assert_eq!(docs.len(), 1);
    assert_eq!(docs[0].index_dir_id, 9);
    assert_eq!(docs[0].file_path, "C:/dir/某文件.txt");
    assert_eq!(docs[0].file_name, "某文件.txt");
    assert_eq!(docs[0].file_content, "第一句。第二句");
}

#[test]
fn test_group_by_file_path() {
    let mk = |path: &str, content: &str| IndexDocument {
        index_dir_id: 3,
        file_path: path.to_string(),
        file_name: "n".to_string(),
        file_content: content.to_string(),
    };
    let grouped = tantivy_search::group_by_file_path(vec![
        mk("p1", "x"),
        mk("p2", "u"),
        mk("p1", "y"),
    ]);
    assert_eq!(grouped.len(), 2);
    assert_eq!(grouped[0].file_path, "p1");
    assert_eq!(grouped[0].file_content, "xy");
    assert_eq!(grouped[1].file_path, "p2");
    assert_eq!(grouped[1].file_content, "u");
}

#[test]
fn test_index_document_new() {
    let d = tantivy_search::IndexDocument::new();
    assert_eq!(d.index_dir_id, 0);
    assert_eq!(d.file_path, "");
    assert_eq!(d.file_name, "");
    assert_eq!(d.file_content, "");
}
