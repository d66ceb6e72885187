use rust_my_doc_search::util::text_utils::{
    find_text_snippets, in_tags, in_which_tag, keywords_pos, str_eq, wrap_keywords, wrap_tags,
};

#[test]
pub fn test_wrap_keywords() {
    let text = "数据库是一种数据存储系统";

    let keywords = vec!["数据库".to_string(), "".to_string()];
    let new_str = wrap_keywords(text, &keywords, "<tag>", "</tag>");

    println!("{}", new_str);
    assert_eq!(new_str, "<tag>数据库</tag>是一种数据存储系统");
}

#[test]
fn test_keywords_pos_overlap() {
    // P7: the second keyword's occurrence overlaps the first claim and yields.
    let text = "数据库系统";
    let keywords = vec!["数据库".to_string(), "库系统".to_string()];
    let tags = keywords_pos(text, &keywords);
    assert_eq!(tags, vec![(0, 2)]);
}

#[test]
fn test_keywords_pos_sorted_disjoint() {
    let text = "ab cd ab cd";
    let keywords = vec!["cd".to_string(), "ab".to_string()];
    let tags = keywords_pos(text, &keywords);
    assert_eq!(tags, vec![(0, 1), (3, 4), (6, 7), (9, 10)]);
    for i in 1..tags.len() {
        assert!(tags[i - 1].1 < tags[i].0);
    }
}

#[test]
fn test_keywords_pos_first_claim_wins() {
    let text = "abcd";
    let keywords = vec!["bc".to_string(), "cd".to_string()];
    let tags = keywords_pos(text, &keywords);
    assert_eq!(tags, vec![(1, 2)]);
}

#[test]
fn test_in_tags() {
    let tags = vec![(2usize, 4usize)];
    assert!(in_tags(4, 6, &tags));
    assert!(in_tags(0, 2, &tags));
    assert!(!in_tags(5, 7, &tags));
}

#[test]
fn test_in_which_tag() {
    let tags = vec![(2usize, 4usize), (6usize, 8usize)];
    assert_eq!(in_which_tag(6, &tags), Some((6, 8)));
    assert_eq!(in_which_tag(3, &tags), None);
}

#[test]
fn test_wrap_tags_plain() {
    let tags = vec![(0usize, 1usize)];
    let wrapped = wrap_tags("abcd", "[", "]", tags);
    assert_eq!(wrapped, "[ab]cd");
}

#[test]
fn test_str_eq() {
    assert!(str_eq("abc", "abc"));
    assert!(!str_eq("abc", "abd"));
    assert!(!str_eq("abc", "ab"));
}

#[test]
fn test_find_text_snippets_window() {
    let text = "abcdefg";
    let keywords = vec!["d".to_string()];
    let snippets = find_text_snippets(text, &keywords, 2, 3);
    assert_eq!(snippets, vec!["bcdef".to_string()]);
}

#[test]
fn test_find_text_snippets_count_cap() {
    let text = "aaaa";
    let keywords = vec!["a".to_string()];
    // at most max + 1 snippets per keyword
    let snippets = find_text_snippets(text, &keywords, 0, 1);
    assert_eq!(snippets, vec!["a".to_string(), "a".to_string()]);
}

#[test]
fn test_find_text_snippets_unicode() {
    let text = "一二三数据库四五六";
    let keywords = vec!["数据库".to_string()];
    let snippets = find_text_snippets(text, &keywords, 2, 3);
    assert_eq!(snippets, vec!["二三数据库四五".to_string()]);
}
