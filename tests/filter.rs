use memo_sync::filter::{filter_memos, matches_lowered, memo_matches_query, search_page};
use memo_sync::memo::Memo;

fn memo(slug: &str, content: &str, tags: &[&str]) -> Memo {
    Memo {
        slug: slug.to_string(),
        content: content.to_string(),
        created_at: "2024-01-01 00:00:00".to_string(),
        updated_at: "2024-01-01 00:00:00".to_string(),
        tags: tags.iter().map(|t| t.to_string()).collect(),
        url: None,
    }
}

fn sample() -> Vec<Memo> {
    vec![
        memo("a", "Hello World", &[]),
        memo("b", "nothing here", &["Work"]),
        memo("c", "HELLO again", &["misc"]),
        memo("d", "bye", &["WORKSHOP"]),
    ]
}

#[test]
fn filter_ignores_case_in_content_and_tags() {
    let slugs: Vec<String> = filter_memos(sample(), "hello").into_iter().map(|m| m.slug).collect();
    assert_eq!(slugs, vec!["a", "c"]);
    let slugs: Vec<String> = filter_memos(sample(), "WORK").into_iter().map(|m| m.slug).collect();
    assert_eq!(slugs, vec!["b", "d"]);
    assert!(filter_memos(sample(), "absent").is_empty());
    assert_eq!(filter_memos(sample(), "").len(), 4);
}

#[test]
fn single_memo_match() {
    assert!(memo_matches_query(&memo("x", "ÄPFEL", &[]), "äpfel"));
    assert!(!memo_matches_query(&memo("x", "apple", &["fruit"]), "pear"));
    assert!(matches_lowered("abc", &vec!["xyz".to_string()], "yz"));
    assert!(!matches_lowered("abc", &vec!["XYZ".to_string()], "yz"));
}

#[test]
fn search_page_windows_matches() {
    let many: Vec<Memo> = (0..5).map(|i| memo(&format!("m{}", i), "Match", &[])).collect();
    let p = search_page(many.clone(), "match", 1, 2);
    let slugs: Vec<String> = p.memos.iter().map(|m| m.slug.clone()).collect();
    assert_eq!(slugs, vec!["m1", "m2"]);
    assert!(p.has_more);
    let p = search_page(many.clone(), "match", 3, 2);
    assert_eq!(p.memos.len(), 2);
    assert!(!p.has_more);
    let p = search_page(many.clone(), "match", 9, 2);
    assert!(p.memos.is_empty());
    assert!(!p.has_more);
    assert!(p.next_slug.is_none());
    assert!(p.next_updated_at.is_none());
}
