use memo_sync::engine::{convert_memo, cursor_epoch, paged_response, PageOutcome, SyncRun, SyncStep, MAX_ITERATIONS};
use memo_sync::memo::{ApiMemo, SyncProgress};
use memo_sync::store::Database;

fn api(slug: &str, updated: &str) -> ApiMemo {
    ApiMemo {
        slug: slug.to_string(),
        content: format!("<p>memo {}</p>", slug),
        created_at: "2024-01-01 00:00:00".to_string(),
        updated_at: updated.to_string(),
        tags: vec!["t".to_string()],
    }
}

fn page(prefix: &str, n: usize, updated: &str) -> Vec<ApiMemo> {
    (0..n).map(|i| api(&format!("{}{}", prefix, i), updated)).collect()
}

enum End {
    Completed,
    Cancelled,
    Failed(String),
}

/// Drives a run over `pages` (then empty pages), cancelling before fetch
/// number `cancel_before` when given; returns the end, the reports and the
/// number of fetches made.
fn drive(
    db: &mut Database,
    mut pages: Vec<Result<Vec<ApiMemo>, String>>,
    cancel_before: Option<usize>,
) -> (End, Vec<SyncProgress>, usize) {
    pages.reverse();
    let mut run = SyncRun::start(db);
    let mut reports = Vec::new();
    let mut fetches = 0usize;
    loop {
        let cancel = cancel_before == Some(fetches);
        match run.next_step(db, cancel) {
            SyncStep::Cancelled => return (End::Cancelled, reports, fetches),
            SyncStep::Finished => break,
            SyncStep::Fetch { .. } => {}
        }
        fetches += 1;
        let fetched = pages.pop().unwrap_or(Ok(Vec::new()));
        match run.on_page(db, fetched) {
            PageOutcome::Progress { progress, more } => {
                reports.push(progress);
                if !more {
                    break;
                }
            }
            PageOutcome::Exhausted => break,
            PageOutcome::Failed { message } => return (End::Failed(message), reports, fetches),
        }
    }
    reports.push(run.finish(db));
    (End::Completed, reports, fetches)
}

#[test]
fn three_pages_all_unique() {
    let mut db = Database::new();
    let pages = vec![
        Ok(page("a", 200, "2024-02-01 00:00:00")),
        Ok(page("b", 200, "2024-02-02 00:00:00")),
        Ok(page("c", 50, "2024-02-03 00:00:00")),
    ];
    let (end, reports, fetches) = drive(&mut db, pages, None);
    assert!(matches!(end, End::Completed));
    assert_eq!(fetches, 3);
    assert_eq!(db.get_memo_count(), 450);
    let currents: Vec<usize> = reports.iter().map(|p| p.current).collect();
    assert_eq!(currents, vec![200, 400, 450, 450]);
    assert!(currents.windows(2).all(|w| w[0] <= w[1]));
    assert_eq!(reports[0].total, 400);
    assert_eq!(reports[2].total, 450);
    assert_eq!(reports[0].message, "Synced 200 unique memos...");
    let last = reports.last().unwrap();
    assert_eq!(last.status, "completed");
    assert_eq!(last.current, last.total);
    assert_eq!(last.message, "Successfully synced 450 unique memos");
    let st = db.get_sync_status();
    assert_eq!(st.status, "completed");
    assert_eq!(st.total_memos, 450);
    assert!(st.last_sync_at.is_some());
    assert!(st.error_message.is_none());
}

#[test]
fn duplicate_page_then_empty_page_ends_run() {
    let mut db = Database::new();
    let first = page("a", 200, "not a date");
    let pages = vec![Ok(first.clone()), Ok(first), Ok(Vec::new())];
    let (end, _reports, fetches) = drive(&mut db, pages, None);
    assert!(matches!(end, End::Completed));
    assert_eq!(fetches, 3);
    assert_eq!(db.get_memo_count(), 200);
    assert_eq!(db.get_sync_status().total_memos, 200);
}

#[test]
fn duplicate_page_then_new_records_continues() {
    let mut db = Database::new();
    let first = page("a", 200, "bad");
    let pages = vec![Ok(first.clone()), Ok(first), Ok(page("b", 10, "bad"))];
    let (end, _reports, fetches) = drive(&mut db, pages, None);
    assert!(matches!(end, End::Completed));
    assert_eq!(fetches, 3);
    assert_eq!(db.get_memo_count(), 210);
}

#[test]
fn two_duplicate_pages_in_a_row_end_run() {
    let mut db = Database::new();
    let first = page("a", 200, "bad");
    let pages = vec![Ok(first.clone()), Ok(first.clone()), Ok(first), Ok(page("z", 5, "bad"))];
    let (end, _reports, fetches) = drive(&mut db, pages, None);
    assert!(matches!(end, End::Completed));
    assert_eq!(fetches, 3);
    assert_eq!(db.get_memo_count(), 200);
}

#[test]
fn duplicates_with_timed_cursor_are_not_unproductive() {
    let mut db = Database::new();
    let first = page("a", 200, "2024-02-01 00:00:00");
    let pages = vec![Ok(first.clone()), Ok(first.clone()), Ok(first), Ok(page("z", 5, "x"))];
    let (end, _reports, fetches) = drive(&mut db, pages, None);
    assert!(matches!(end, End::Completed));
    assert_eq!(fetches, 4);
    assert_eq!(db.get_memo_count(), 205);
}

#[test]
fn never_ending_source_stops_at_ceiling() {
    let mut db = Database::new();
    let pages: Vec<Result<Vec<ApiMemo>, String>> =
        (0..150).map(|k| Ok(page(&format!("p{}-", k), 200, "2024-01-01 00:00:00"))).collect();
    let (end, reports, fetches) = drive(&mut db, pages, None);
    assert!(matches!(end, End::Completed));
    assert_eq!(fetches as u64, MAX_ITERATIONS);
    assert_eq!(db.get_memo_count(), 200 * 100);
    assert_eq!(reports.last().unwrap().status, "completed");
    assert_eq!(db.get_sync_status().status, "completed");
}

#[test]
fn cancel_before_first_fetch() {
    let mut db = Database::new();
    let (end, reports, fetches) = drive(&mut db, vec![Ok(page("a", 200, "x"))], Some(0));
    assert!(matches!(end, End::Cancelled));
    assert_eq!(fetches, 0);
    assert!(reports.is_empty());
    let st = db.get_sync_status();
    assert_eq!(st.status, "cancelled");
    assert_eq!(st.total_memos, 0);
    assert_eq!(db.get_memo_count(), 0);
}

#[test]
fn cancel_after_two_batches_keeps_them() {
    let mut db = Database::new();
    let pages = vec![
        Ok(page("a", 200, "2024-01-01 00:00:00")),
        Ok(page("b", 200, "2024-01-01 00:00:00")),
        Ok(page("c", 200, "2024-01-01 00:00:00")),
    ];
    let (end, _reports, fetches) = drive(&mut db, pages, Some(2));
    assert!(matches!(end, End::Cancelled));
    assert_eq!(fetches, 2);
    let st = db.get_sync_status();
    assert_eq!(st.status, "cancelled");
    assert_eq!(st.total_memos, 400);
    assert!(st.error_message.is_none());
    assert_eq!(db.get_memo_count(), 400);
}

#[test]
fn fetch_error_marks_failed_and_keeps_partial_data() {
    let mut db = Database::new();
    let pages = vec![Ok(page("a", 200, "2024-01-01 00:00:00")), Err("API error: code -1".to_string())];
    let (end, _reports, _fetches) = drive(&mut db, pages, None);
    match end {
        End::Failed(m) => assert_eq!(m, "API error: code -1"),
        _ => panic!("expected failure"),
    }
    let st = db.get_sync_status();
    assert_eq!(st.status, "failed");
    assert_eq!(st.error_message.as_deref(), Some("API error: code -1"));
    assert_eq!(st.total_memos, 200);
    assert_eq!(db.get_memo_count(), 200);
}

#[test]
fn new_run_clears_previous_error() {
    let mut db = Database::new();
    db.update_sync_status("failed", None, Some("old"));
    let _run = SyncRun::start(&mut db);
    let st = db.get_sync_status();
    assert_eq!(st.status, "syncing");
    assert!(st.error_message.is_none());
}

#[test]
fn cursor_follows_last_record_of_full_page() {
    let mut db = Database::new();
    let mut run = SyncRun::start(&mut db);
    match run.next_step(&mut db, false) {
        SyncStep::Fetch { latest_slug, latest_updated_at } => {
            assert!(latest_slug.is_none());
            assert!(latest_updated_at.is_none());
        }
        _ => panic!("expected fetch"),
    }
    let mut p = page("a", 199, "2024-01-01 00:00:00");
    p.push(api("last", "2024-01-02T03:04:05"));
    run.on_page(&mut db, Ok(p));
    match run.next_step(&mut db, false) {
        SyncStep::Fetch { latest_slug, latest_updated_at } => {
            assert_eq!(latest_slug.as_deref(), Some("last"));
            assert_eq!(latest_updated_at, Some(1704164645));
        }
        _ => panic!("expected fetch"),
    }
}

#[test]
fn cursor_epoch_accepts_both_forms() {
    assert_eq!(cursor_epoch("2024-01-02 03:04:05"), Some(1704164645));
    assert_eq!(cursor_epoch("2024-01-02T03:04:05"), Some(1704164645));
    assert_eq!(cursor_epoch("1970-01-01 00:00:00"), Some(0));
    assert_eq!(cursor_epoch("yesterday"), None);
}

#[test]
fn convert_memo_makes_plain_text_and_link() {
    let m = convert_memo(&ApiMemo {
        slug: "MTIz".to_string(),
        content: "<p>Hello <b>world</b></p>".to_string(),
        created_at: "c".to_string(),
        updated_at: "u".to_string(),
        tags: vec!["a".to_string(), "b".to_string()],
    });
    assert_eq!(m.slug, "MTIz");
    assert!(!m.content.contains('<'));
    assert!(m.content.contains("Hello"));
    assert!(m.content.contains("world"));
    assert_eq!(m.url.as_deref(), Some("https://v.flomoapp.com/mine/?memo_id=MTIz"));
    assert_eq!(m.tags, vec!["a".to_string(), "b".to_string()]);
    assert_eq!(m.created_at, "c");
    assert_eq!(m.updated_at, "u");
}

#[test]
fn paged_response_of_full_and_short_pages() {
    let mut full = page("a", 199, "x");
    full.push(api("z", "2024-01-02T03:04:05"));
    let r = paged_response(&full);
    assert!(r.has_more);
    assert_eq!(r.memos.len(), 200);
    assert_eq!(r.next_slug.as_deref(), Some("z"));
    assert_eq!(r.next_updated_at, Some(1704164645));
    assert_eq!(r.memos[0].url.as_deref(), Some("https://v.flomoapp.com/mine/?memo_id=a0"));
    let short = paged_response(&page("b", 3, "x"));
    assert!(!short.has_more);
    assert_eq!(short.memos.len(), 3);
    assert!(short.next_slug.is_none());
    assert!(short.next_updated_at.is_none());
    let empty = paged_response(&Vec::new());
    assert!(!empty.has_more);
    assert!(empty.memos.is_empty());
}

#[test]
fn first_empty_page_does_not_end_run() {
    let mut db = Database::new();
    let pages = vec![
        Ok(page("a", 200, "2024-02-01 00:00:00")),
        Ok(Vec::new()),
        Ok(page("b", 10, "2024-02-02 00:00:00")),
    ];
    let (end, reports, fetches) = drive(&mut db, pages, None);
    assert!(matches!(end, End::Completed));
    assert_eq!(fetches, 3);
    assert_eq!(db.get_memo_count(), 210);
    assert_eq!(reports[1].current, 200);
    assert_eq!(reports[1].total, 200);
}

#[test]
fn short_duplicate_page_then_new_records_continues() {
    let mut db = Database::new();
    let first = page("a", 200, "bad");
    let pages = vec![Ok(first.clone()), Ok(first[..20].to_vec()), Ok(page("b", 10, "bad"))];
    let (end, _reports, fetches) = drive(&mut db, pages, None);
    assert!(matches!(end, End::Completed));
    assert_eq!(fetches, 3);
    assert_eq!(db.get_memo_count(), 210);
}

#[test]
fn empty_source_ends_after_two_empty_pages() {
    let mut db = Database::new();
    let (end, reports, fetches) = drive(&mut db, Vec::new(), None);
    assert!(matches!(end, End::Completed));
    assert_eq!(fetches, 2);
    assert_eq!(db.get_memo_count(), 0);
    assert_eq!(reports.last().unwrap().status, "completed");
    assert_eq!(db.get_sync_status().status, "completed");
}

#[test]
fn batch_progress_keeps_earlier_error_text() {
    let mut db = Database::new();
    db.update_sync_status("failed", None, Some("old"));
    db.update_sync_status("syncing", Some(3), None);
    let st = db.get_sync_status();
    assert_eq!(st.total_memos, 3);
    assert_eq!(st.error_message.as_deref(), Some("old"));
}

#[test]
fn markup_with_numeric_attributes_is_kept_raw() {
    let mut a = api("c", "x");
    a.content = "<ol start=\"9223372036854775807\"><li>x</li></ol>".to_string();
    assert_eq!(convert_memo(&a).content, a.content);
    a.content = "<table><tr><td COLSPAN = 18446744073709551615>x</td></tr></table>".to_string();
    assert_eq!(convert_memo(&a).content, a.content);
    a.content = "<p>a &#39;b&#39; and start the day; \u{1}</p>".to_string();
    let c = convert_memo(&a).content;
    assert!(c.contains("'b'"));
    assert!(c.contains("start the day"));
    assert!(!c.contains('<'));
    a.content = "<ol start=\"3\"><li>x</li></ol>".to_string();
    assert_eq!(convert_memo(&a).content, a.content);
}

#[test]
fn overlapping_pages_store_each_slug_once() {
    let mut db = Database::new();
    let mut second: Vec<ApiMemo> = (100..200).map(|i| api(&format!("a{}", i), "2024-02-01 00:00:00")).collect();
    second.extend(page("b", 100, "2024-02-02 00:00:00"));
    let pages = vec![Ok(page("a", 200, "2024-02-01 00:00:00")), Ok(second), Ok(page("c", 50, "x"))];
    let (end, reports, fetches) = drive(&mut db, pages, None);
    assert!(matches!(end, End::Completed));
    assert_eq!(fetches, 3);
    // 450 records, 100 of them repeat a slug of the first page
    assert_eq!(db.get_memo_count(), 350);
    assert_eq!(db.get_sync_status().total_memos, 350);
    let currents: Vec<usize> = reports.iter().map(|p| p.current).collect();
    assert_eq!(currents, vec![200, 300, 350, 350]);
}
