use memo_sync::export::{
    flatten, format_date, trim_text, format_memos_markdown, format_memos_markdown_with_options,
    format_memos_table, format_memos_table_with_options, replace_all, to_chrono_pattern,
};
use memo_sync::memo::Memo;

fn memo(slug: &str, content: &str, created: &str, url: Option<&str>, tags: &[&str]) -> Memo {
    Memo {
        slug: slug.to_string(),
        content: content.to_string(),
        created_at: created.to_string(),
        updated_at: created.to_string(),
        tags: tags.iter().map(|t| t.to_string()).collect(),
        url: url.map(|u| u.to_string()),
    }
}

fn header() -> String {
    format!("序号 | 创建时间          | 内容预览\n{}\n", "-".repeat(50))
}

#[test]
fn markdown_document() {
    let out = format_memos_markdown(vec![
        memo("s1", "hi", "2024-01-01 10:00:00", Some("u1"), &["a", "b"]),
        memo("s2", "yo", "2024-01-02 10:00:00", None, &[]),
    ]);
    assert_eq!(
        out,
        "# Flomo 备忘录\n\n## 1. 2024-01-01 10:00:00\n\nhi\n\n**链接**: u1\n**标签**: a, b\n\n---\n\n## 2. 2024-01-02 10:00:00\n\nyo\n\n\n---\n\n"
    );
    assert_eq!(format_memos_markdown(Vec::new()), "# Flomo 备忘录\n\n");
}

#[test]
fn table_rows_and_previews() {
    let long = "abcdefghij\nklmnopqrstuvwxyz0123456789";
    let out = format_memos_table(vec![
        memo("s1", "hi", "2024-01-01 10:00:00", None, &[]),
        memo("s2", long, "2024-01-02T10:00:00", None, &[]),
        memo("s3", "一二三四五六七八九十", "2024-01-03 x", None, &[]),
    ]);
    let expected = format!(
        "{}{}{}{}",
        header(),
        " 1   | 2024-01-01        | hi\n",
        " 2   | 2024-01-02T10:00:00 | abcdefghij klmnopqrstuvwxyz012...\n",
        " 3   | 2024-01-03        | 一二三四五六七八九十...\n"
    );
    assert_eq!(out, expected);
    assert_eq!(format_memos_table(Vec::new()), header());
}

#[test]
fn table_with_date_format() {
    let out = format_memos_table_with_options(
        vec![memo("s1", "hi", "2024-01-01 10:00:00", None, &[])],
        "yyyy/MM/dd",
    );
    assert_eq!(out, format!("{} 1   | 2024/01/01        | hi\n", header()));
    let plain = format_memos_table_with_options(vec![memo("s1", "hi", "2024-01-01 10:00:00", None, &[])], "");
    assert_eq!(plain, format_memos_table(vec![memo("s1", "hi", "2024-01-01 10:00:00", None, &[])]));
}

#[test]
fn dates_in_user_formats() {
    assert_eq!(format_date("2024-01-02 03:04:05", "yyyy/MM/dd"), "2024/01/02");
    assert_eq!(format_date("2024-01-02T03:04:05Z", "HH:mm:ss"), "03:04:05");
    assert_eq!(format_date("2024-01-02T03:04:05+08:00", "yyyy-MM-dd HH"), "2024-01-01 19");
    assert_eq!(format_date("2024-01-02 03:04:05", "yyyy年"), "2024年01月02日 03:04");
    assert_eq!(format_date("2024-01-02 03:04:05", "MMM"), "01M");
    assert_eq!(format_date("not a date", "yyyy"), "not a date");
    assert_eq!(format_date("2024-01-02 03:04:05", "%Q"), "2024-01-02 03:04:05");
}

#[test]
fn pattern_conversion_and_replace() {
    assert_eq!(to_chrono_pattern("yyyy-MM-dd HH:mm:ss"), "%Y-%m-%d %H:%M:%S");
    assert_eq!(replace_all("aaaa", "aa", "b"), "bb");
    assert_eq!(replace_all("abcabc", "bc", "X"), "aXaX");
    assert_eq!(replace_all("", "x", "y"), "");
    assert_eq!(flatten("a\nb\n"), "a b ");
}

#[test]
fn markdown_minimal_lines() {
    let ms = vec![memo("s1", "a\nb", "2024-01-02 03:04:05", Some("u"), &["t"])];
    assert_eq!(format_memos_markdown_with_options(ms.clone(), "full", "", true), "1|a b\n");
    assert_eq!(format_memos_markdown_with_options(ms, "full", "yyyy", true), "1|2024|a b\n");
}

#[test]
fn markdown_full_entries_by_url_mode() {
    let ms = vec![memo("s1", "  x  ", "2024-01-02 03:04:05", Some("u"), &["t1", "t2"])];
    assert_eq!(
        format_memos_markdown_with_options(ms.clone(), "id", "", false),
        "# Flomo 备忘录\n\n## 1\n\nx\n**ID**: s1\n**标签**: t1, t2\n\n---\n\n"
    );
    assert_eq!(
        format_memos_markdown_with_options(ms.clone(), "full", "yyyy-MM-dd", false),
        "# Flomo 备忘录\n\n## 1. 2024-01-02\n\nx\n**链接**: u\n**标签**: t1, t2\n\n---\n\n"
    );
    assert_eq!(
        format_memos_markdown_with_options(ms, "none", "", false),
        "# Flomo 备忘录\n\n## 1\n\nx\n**标签**: t1, t2\n\n---\n\n"
    );
}

#[test]
fn trim_matches_std_trim() {
    for s in ["  x \n", "\u{3000}a b\u{a0}", "   ", "", "abc", "\tq\u{2028}", "\u{1}x\u{1}"] {
        assert_eq!(trim_text(s), s.trim());
    }
    assert_eq!(trim_text("  in  side  "), "in  side");
}
