//! The records the cache holds and hands out, with their mathematical views.
use vstd::prelude::*;

verus! {

/// A note as callers see it: plain-text content, timestamps as text, tags
/// in order, and an optional deep link back to the remote service.
#[derive(Debug, Clone)]
pub struct Memo {
    pub slug: String,
    pub content: String,
    pub created_at: String,
    pub updated_at: String,
    pub tags: Vec<String>,
    pub url: Option<String>,
}

pub struct MemoView {
    pub slug: Seq<char>,
    pub content: Seq<char>,
    pub created_at: Seq<char>,
    pub updated_at: Seq<char>,
    pub tags: Seq<Seq<char>>,
    pub url: Option<Seq<char>>,
}

pub open spec fn opt_view(o: Option<String>) -> Option<Seq<char>> {
    match o {
        Some(s) => Some(s@),
        None => None,
    }
}

pub open spec fn strings_view(v: Seq<String>) -> Seq<Seq<char>> {
    v.map_values(|s: String| s@)
}

impl View for Memo {
    type V = MemoView;

    open spec fn view(&self) -> MemoView {
        MemoView {
            slug: self.slug@,
            content: self.content@,
            created_at: self.created_at@,
            updated_at: self.updated_at@,
            tags: strings_view(self.tags@),
            url: opt_view(self.url),
        }
    }
}

/// A stored row: the memo's fields, the tag list as JSON text, the link
/// (empty when there is none), a row id and the time of the last write.
#[derive(Debug, Clone)]
pub struct DbMemo {
    pub id: i64,
    pub slug: String,
    pub content: String,
    pub created_at: String,
    pub updated_at: String,
    pub tags: String,
    pub url: String,
    pub synced_at: String,
}

/// What a row holds apart from its write time, which only the clock decides.
pub struct RowView {
    pub id: int,
    pub slug: Seq<char>,
    pub content: Seq<char>,
    pub created_at: Seq<char>,
    pub updated_at: Seq<char>,
    pub tags: Seq<char>,
    pub url: Seq<char>,
}

impl View for DbMemo {
    type V = RowView;

    open spec fn view(&self) -> RowView {
        RowView {
            id: self.id as int,
            slug: self.slug@,
            content: self.content@,
            created_at: self.created_at@,
            updated_at: self.updated_at@,
            tags: self.tags@,
            url: self.url@,
        }
    }
}

/// The single sync-status record.
#[derive(Debug)]
pub struct SyncStatus {
    pub id: i64,
    pub last_sync_at: Option<String>,
    pub total_memos: i64,
    pub status: String,
    pub error_message: Option<String>,
}

pub struct SyncStatusView {
    pub id: int,
    pub last_sync_at: Option<Seq<char>>,
    pub total_memos: int,
    pub status: Seq<char>,
    pub error_message: Option<Seq<char>>,
}

impl View for SyncStatus {
    type V = SyncStatusView;

    open spec fn view(&self) -> SyncStatusView {
        SyncStatusView {
            id: self.id as int,
            last_sync_at: opt_view(self.last_sync_at),
            total_memos: self.total_memos as int,
            status: self.status@,
            error_message: opt_view(self.error_message),
        }
    }
}

/// One progress report of a sync run.
#[derive(Debug)]
pub struct SyncProgress {
    pub total: usize,
    pub current: usize,
    pub status: String,
    pub message: String,
}

/// One page of memos with the cursor that continues after it.
#[derive(Debug)]
pub struct PagedResponse {
    pub memos: Vec<Memo>,
    pub has_more: bool,
    pub next_slug: Option<String>,
    pub next_updated_at: Option<i64>,
}

/// A record as the remote service returns it: content still in markup.
#[derive(Debug, Clone)]
pub struct ApiMemo {
    pub slug: String,
    pub content: String,
    pub created_at: String,
    pub updated_at: String,
    pub tags: Vec<String>,
}

pub fn copy_string(s: &String) -> (r: String)
    ensures
        r@ == s@,
{
    s.clone()
}

pub fn copy_opt_string(s: &Option<String>) -> (r: Option<String>)
    ensures
        opt_view(r) == opt_view(*s),
{
    match s {
        Some(x) => Some(x.clone()),
        None => None,
    }
}

pub fn copy_strings(v: &Vec<String>) -> (r: Vec<String>)
    ensures
        strings_view(r@) == strings_view(v@),
{
    let mut r: Vec<String> = Vec::new();
    let mut i: usize = 0;
    while i < v.len()
        invariant
            i <= v@.len(),
            r@.len() == i,
            forall|k: int| 0 <= k < i ==> r@[k]@ == v@[k]@,
        decreases v@.len() - i,
    {
        r.push(v[i].clone());
        i = i + 1;
    }
    assert(strings_view(r@) =~= strings_view(v@));
    r
}

impl Memo {
    /// A copy with the same view.
    pub fn copied(&self) -> (r: Memo)
        ensures
            r@ == self@,
    {
        Memo {
            slug: self.slug.clone(),
            content: self.content.clone(),
            created_at: self.created_at.clone(),
            updated_at: self.updated_at.clone(),
            tags: copy_strings(&self.tags),
            url: copy_opt_string(&self.url),
        }
    }
}

impl SyncStatus {
    /// A copy with the same view.
    pub fn copied(&self) -> (r: SyncStatus)
        ensures
            r@ == self@,
    {
        SyncStatus {
            id: self.id,
            last_sync_at: copy_opt_string(&self.last_sync_at),
            total_memos: self.total_memos,
            status: self.status.clone(),
            error_message: copy_opt_string(&self.error_message),
        }
    }
}

} // verus!
