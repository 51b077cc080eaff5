use memo_sync::memo::Memo;
use memo_sync::store::Database;

fn memo(slug: &str, content: &str, created: &str, updated: &str, tags: &[&str]) -> Memo {
    Memo {
        slug: slug.to_string(),
        content: content.to_string(),
        created_at: created.to_string(),
        updated_at: updated.to_string(),
        tags: tags.iter().map(|t| t.to_string()).collect(),
        url: Some(format!("https://example.test/{}", slug)),
    }
}

fn slugs(ms: &[Memo]) -> Vec<String> {
    ms.iter().map(|m| m.slug.clone()).collect()
}

fn sample() -> Database {
    let mut db = Database::new();
    db.bulk_upsert_memos(&[
        memo("a", "alpha note", "2024-01-02 10:00:00", "2024-03-01 00:00:00", &["work"]),
        memo("b", "beta Note", "2024-01-01 10:00:00", "2024-03-03 00:00:00", &["home"]),
        memo("c", "gamma", "2024-01-03 10:00:00", "2024-03-02 00:00:00", &["work", "idea"]),
    ])
    .unwrap();
    db
}

#[test]
fn new_store_is_empty_and_idle() {
    let db = Database::new();
    assert_eq!(db.get_memo_count(), 0);
    let st = db.get_sync_status();
    assert_eq!(st.id, 1);
    assert_eq!(st.status, "idle");
    assert_eq!(st.total_memos, 0);
    assert!(st.error_message.is_none());
    assert!(st.last_sync_at.is_none());
}

#[test]
fn upsert_same_slug_twice_keeps_one_row() {
    let mut db = Database::new();
    db.upsert_memo(&memo("s1", "first", "2024-01-01 00:00:00", "2024-01-01 00:00:00", &["x"]))
        .unwrap();
    db.upsert_memo(&memo("s1", "second", "2025-05-05 00:00:00", "2025-05-06 00:00:00", &["y"]))
        .unwrap();
    assert_eq!(db.get_memo_count(), 1);
    let all = db.get_all_memos();
    assert_eq!(all.len(), 1);
    assert_eq!(all[0].content, "second");
    assert_eq!(all[0].created_at, "2024-01-01 00:00:00");
    assert_eq!(all[0].updated_at, "2025-05-06 00:00:00");
    assert_eq!(all[0].tags, vec!["y".to_string()]);
    assert_eq!(all[0].url.as_deref(), Some("https://example.test/s1"));
}

#[test]
fn bulk_upsert_counts_distinct_slugs() {
    let mut db = Database::new();
    let page1: Vec<Memo> = (0..5).map(|i| memo(&format!("m{}", i), "c", "t", "t", &[])).collect();
    let page2: Vec<Memo> = (3..8).map(|i| memo(&format!("m{}", i), "c2", "t", "t", &[])).collect();
    db.bulk_upsert_memos(&page1).unwrap();
    db.bulk_upsert_memos(&page2).unwrap();
    // 10 records, 2 of them repeat an earlier slug
    assert_eq!(db.get_memo_count(), 8);
    let mut dup_in_batch = Database::new();
    dup_in_batch
        .bulk_upsert_memos(&[memo("x", "1", "t", "t", &[]), memo("x", "2", "t", "t", &[])])
        .unwrap();
    assert_eq!(dup_in_batch.get_memo_count(), 1);
    assert_eq!(dup_in_batch.get_all_memos()[0].content, "2");
}

#[test]
fn empty_batch_writes_nothing() {
    let mut db = sample();
    db.bulk_upsert_memos(&[]).unwrap();
    assert_eq!(db.get_memo_count(), 3);
}

#[test]
fn page_orders_by_requested_field_and_direction() {
    let db = sample();
    assert_eq!(slugs(&db.get_memos_page("created_at", "desc", 0, 10)), vec!["c", "a", "b"]);
    assert_eq!(slugs(&db.get_memos_page("created_at", "asc", 0, 10)), vec!["b", "a", "c"]);
    assert_eq!(slugs(&db.get_memos_page("updated_at", "asc", 0, 10)), vec!["a", "c", "b"]);
    assert_eq!(slugs(&db.get_memos_page("updated_at", "desc", 0, 10)), vec!["b", "c", "a"]);
}

#[test]
fn unknown_order_values_fall_back() {
    let db = sample();
    let bogus = slugs(&db.get_memos_page("bogus", "sideways", 0, 10));
    let default = slugs(&db.get_memos_page("created_at", "desc", 0, 10));
    assert_eq!(bogus, default);
    assert_eq!(
        slugs(&db.search_memos("note", "bogus", "asc", 0, 10)),
        slugs(&db.search_memos("note", "created_at", "asc", 0, 10))
    );
}

#[test]
fn page_offset_and_limit() {
    let db = sample();
    assert_eq!(slugs(&db.get_memos_page("created_at", "asc", 1, 1)), vec!["a"]);
    assert_eq!(slugs(&db.get_memos_page("created_at", "asc", 2, 5)), vec!["c"]);
    assert!(db.get_memos_page("created_at", "asc", 3, 5).is_empty());
    assert!(db.get_memos_page("created_at", "asc", 0, 0).is_empty());
    assert_eq!(slugs(&db.get_memos_page("created_at", "asc", -4, 2)), vec!["b", "a"]);
    assert_eq!(slugs(&db.get_memos_page("created_at", "asc", 1, -1)), vec!["a", "c"]);
}

#[test]
fn equal_keys_keep_insertion_order() {
    let mut db = Database::new();
    db.bulk_upsert_memos(&[
        memo("p", "", "same", "same", &[]),
        memo("q", "", "same", "same", &[]),
        memo("r", "", "same", "same", &[]),
    ])
    .unwrap();
    assert_eq!(slugs(&db.get_memos_page("created_at", "asc", 0, 10)), vec!["p", "q", "r"]);
    assert_eq!(slugs(&db.get_memos_page("created_at", "desc", 0, 10)), vec!["r", "q", "p"]);
}

#[test]
fn search_is_case_sensitive_over_content_and_tags() {
    let db = sample();
    assert_eq!(slugs(&db.search_memos("note", "created_at", "asc", 0, 10)), vec!["a"]);
    assert_eq!(slugs(&db.search_memos("Note", "created_at", "asc", 0, 10)), vec!["b"]);
    assert_eq!(slugs(&db.search_memos("work", "created_at", "asc", 0, 10)), vec!["a", "c"]);
    assert_eq!(slugs(&db.search_memos("idea", "created_at", "desc", 0, 10)), vec!["c"]);
    assert!(db.search_memos("zzz", "created_at", "desc", 0, 10).is_empty());
    assert_eq!(db.search_memos("", "created_at", "desc", 0, 10).len(), 3);
}

#[test]
fn tags_read_back_in_order() {
    let db = sample();
    let c = db.search_memos("gamma", "created_at", "asc", 0, 1);
    assert_eq!(c[0].tags, vec!["work".to_string(), "idea".to_string()]);
}

#[test]
fn memo_without_link_reads_back_empty_link() {
    let mut db = Database::new();
    let mut m = memo("n", "x", "t", "t", &[]);
    m.url = None;
    db.upsert_memo(&m).unwrap();
    assert_eq!(db.get_all_memos()[0].url.as_deref(), Some(""));
}

#[test]
fn sync_status_transitions() {
    let mut db = Database::new();
    db.update_sync_status("failed", None, Some("boom"));
    let st = db.get_sync_status();
    assert_eq!(st.status, "failed");
    assert_eq!(st.error_message.as_deref(), Some("boom"));
    db.update_sync_status("cancelled", Some(4), None);
    let st = db.get_sync_status();
    assert_eq!(st.total_memos, 4);
    assert_eq!(st.error_message.as_deref(), Some("boom"));
    db.update_sync_status("syncing", None, None);
    let st = db.get_sync_status();
    assert_eq!(st.status, "syncing");
    assert!(st.error_message.is_none());
    assert_eq!(st.total_memos, 4);
    assert!(st.last_sync_at.is_none());
    db.update_sync_status("completed", Some(7), None);
    let st = db.get_sync_status();
    assert_eq!(st.status, "completed");
    assert_eq!(st.total_memos, 7);
    assert!(st.last_sync_at.is_some());
}

#[test]
fn clear_resets_memos_and_status() {
    let mut db = sample();
    db.update_sync_status("failed", Some(3), Some("x"));
    db.clear_all_memos();
    assert_eq!(db.get_memo_count(), 0);
    let st = db.get_sync_status();
    assert_eq!(st.status, "idle");
    assert_eq!(st.total_memos, 0);
    assert!(st.error_message.is_none());
    assert!(db.get_all_memos().is_empty());
}

#[test]
fn rows_and_restored_status() {
    let mut db = sample();
    let rows = db.get_rows();
    assert_eq!(rows.iter().map(|r| r.slug.as_str()).collect::<Vec<_>>(), vec!["a", "b", "c"]);
    assert_eq!(rows.iter().map(|r| r.id).collect::<Vec<_>>(), vec![1, 2, 3]);
    assert_eq!(rows[2].tags, "[\"work\",\"idea\"]");
    db.restore_sync_status(memo_sync::memo::SyncStatus {
        id: 7,
        last_sync_at: Some("then".to_string()),
        total_memos: 3,
        status: "completed".to_string(),
        error_message: None,
    });
    let st = db.get_sync_status();
    assert_eq!(st.id, 1);
    assert_eq!(st.last_sync_at.as_deref(), Some("then"));
    assert_eq!(st.status, "completed");
}

#[test]
fn restore_row_keeps_id_and_write_time() {
    let mut db = Database::new();
    let row = memo_sync::memo::DbMemo {
        id: 5,
        slug: "r".to_string(),
        content: "c".to_string(),
        created_at: "t".to_string(),
        updated_at: "t".to_string(),
        tags: "[\"x\"]".to_string(),
        url: "u".to_string(),
        synced_at: "then".to_string(),
    };
    assert!(db.restore_row(row.clone()).is_ok());
    assert!(db.restore_row(row.clone()).is_err());
    let mut older = row.clone();
    older.slug = "s".to_string();
    older.id = 3;
    assert!(db.restore_row(older).is_err());
    let rows = db.get_rows();
    assert_eq!(rows.len(), 1);
    assert_eq!(rows[0].id, 5);
    assert_eq!(rows[0].synced_at, "then");
    assert_eq!(db.get_all_memos()[0].tags, vec!["x".to_string()]);
    db.upsert_memo(&memo("n", "c", "t", "t", &[])).unwrap();
    assert_eq!(db.get_rows()[1].id, 6);
}
