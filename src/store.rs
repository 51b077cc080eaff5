//! The local store: memos keyed by slug, upserted idempotently, read back
//! in a requested order with offset and limit, searched by substring, and a
//! single sync-status record.
use vstd::prelude::*;
use crate::memo::{
    DbMemo, Memo, MemoView, RowView, SyncStatus, SyncStatusView, copy_string,
    strings_view,
};
use crate::text::{chars_lt, has_substring, str_contains, str_eq, str_lt};
use crate::text::{lemma_chars_lt_irreflexive, lemma_chars_lt_total, lemma_chars_lt_transitive};

verus! {

/// What `serde_json::to_string` makes of a tag list.
pub uninterp spec fn tags_json(tags: Seq<Seq<char>>) -> Seq<char>;

/// What `serde_json::from_str` reads back as a tag list from stored text
/// (empty where the text is not a JSON array of strings).
pub uninterp spec fn decoded_tags(text: Seq<char>) -> Seq<Seq<char>>;

/// Relies on `serde_json::to_string` for the JSON text of a tag list.
#[verifier::external_body]
fn encode_tags(tags: &Vec<String>) -> (r: Option<String>)
    ensures
        r is Some,
        r matches Some(s) ==> s@ == tags_json(strings_view(tags@)),
{
    serde_json::to_string(tags).ok()
}

/// Relies on `serde_json::from_str` to read a stored tag list back; text
/// that does not parse gives the empty list.
#[verifier::external_body]
fn decode_tags(text: &String) -> (r: Vec<String>)
    ensures
        strings_view(r@) == decoded_tags(text@),
{
    serde_json::from_str(text).unwrap_or_default()
}

/// Relies on `chrono::Utc::now` and `to_rfc3339`: the current time as text.
#[verifier::external_body]
pub(crate) fn now_rfc3339() -> (r: String) {
    chrono::Utc::now().to_rfc3339()
}

pub open spec fn opt_str_view(q: Option<&str>) -> Option<Seq<char>> {
    match q {
        Some(s) => Some(s@),
        None => None,
    }
}

pub open spec fn url_text(u: Option<Seq<char>>) -> Seq<char> {
    match u {
        Some(s) => s,
        None => Seq::empty(),
    }
}

/// The row a memo becomes when its slug is new.
pub open spec fn fresh_row(m: MemoView, tags: Seq<char>, id: int) -> RowView {
    RowView {
        id,
        slug: m.slug,
        content: m.content,
        created_at: m.created_at,
        updated_at: m.updated_at,
        tags,
        url: url_text(m.url),
    }
}

/// The row after a memo with the same slug is written over it: its id and
/// creation time stay, the rest is taken from the memo.
pub open spec fn refreshed_row(r: RowView, m: MemoView, tags: Seq<char>) -> RowView {
    RowView {
        id: r.id,
        slug: r.slug,
        content: m.content,
        created_at: r.created_at,
        updated_at: m.updated_at,
        tags,
        url: url_text(m.url),
    }
}

pub open spec fn slug_at(rows: Seq<RowView>, slug: Seq<char>, i: int) -> bool {
    0 <= i < rows.len() && rows[i].slug == slug
}

/// Insert-or-replace keyed by slug; the second component is the next free id.
pub open spec fn upsert_one(rows: Seq<RowView>, next_id: int, m: MemoView, tags: Seq<char>) -> (
    Seq<RowView>,
    int,
) {
    if exists|i: int| slug_at(rows, m.slug, i) {
        let i = choose|i: int| slug_at(rows, m.slug, i);
        (rows.update(i, refreshed_row(rows[i], m, tags)), next_id)
    } else {
        (rows.push(fresh_row(m, tags, next_id)), next_id + 1)
    }
}

/// The memos upserted one after another, in order.
pub open spec fn upsert_all(
    rows: Seq<RowView>,
    next_id: int,
    ms: Seq<MemoView>,
    tags: Seq<Seq<char>>,
) -> (Seq<RowView>, int)
    decreases ms.len(),
{
    if ms.len() == 0 {
        (rows, next_id)
    } else {
        let (r1, n1) = upsert_one(rows, next_id, ms[0], tags[0]);
        upsert_all(r1, n1, ms.drop_first(), tags.drop_first())
    }
}

pub open spec fn memo_views(ms: Seq<Memo>) -> Seq<MemoView> {
    ms.map_values(|m: Memo| m@)
}

pub open spec fn tags_json_all(ms: Seq<MemoView>) -> Seq<Seq<char>> {
    ms.map_values(|m: MemoView| tags_json(m.tags))
}

pub open spec fn slugs_unique(rows: Seq<RowView>) -> bool {
    forall|i: int, j: int| 0 <= i < rows.len() && 0 <= j < rows.len() && i != j ==> rows[i].slug != rows[j].slug
}

pub open spec fn ids_below(rows: Seq<RowView>, next_id: int) -> bool {
    &&& forall|i: int| 0 <= i < rows.len() ==> 1 <= #[trigger] rows[i].id < next_id
    &&& forall|i: int, j: int| 0 <= i < rows.len() && 0 <= j < rows.len() && i != j ==> rows[i].id != rows[j].id
    &&& rows.len() < next_id
}

/// The memo a row reads back as.
pub open spec fn memo_of_row(r: RowView) -> MemoView {
    MemoView {
        slug: r.slug,
        content: r.content,
        created_at: r.created_at,
        updated_at: r.updated_at,
        tags: decoded_tags(r.tags),
        url: Some(r.url),
    }
}

pub open spec fn key_of(r: RowView, by_updated: bool) -> Seq<char> {
    if by_updated { r.updated_at } else { r.created_at }
}

/// Ascending order by the key, ties broken by row id (the insertion order).
pub open spec fn key_lt(a: RowView, b: RowView, by_updated: bool) -> bool {
    chars_lt(key_of(a, by_updated), key_of(b, by_updated)) || (key_of(a, by_updated) == key_of(
        b,
        by_updated,
    ) && a.id < b.id)
}

/// `a` is listed before `b`.
pub open spec fn row_before(a: RowView, b: RowView, by_updated: bool, asc: bool) -> bool {
    if asc { key_lt(a, b, by_updated) } else { key_lt(b, a, by_updated) }
}

/// Whether a row is part of a listing: every row, or those whose content or
/// tag text holds the query.
pub open spec fn selected(r: RowView, q: Option<Seq<char>>) -> bool {
    match q {
        None => true,
        Some(q) => has_substring(r.content, q) || has_substring(r.tags, q),
    }
}

/// `idx` lists exactly the selected rows, each once, in order.
pub open spec fn is_listing(
    rows: Seq<RowView>,
    idx: Seq<usize>,
    q: Option<Seq<char>>,
    by_updated: bool,
    asc: bool,
) -> bool {
    &&& forall|i: int| 0 <= i < idx.len() ==> #[trigger] idx[i] < rows.len() && selected(rows[idx[i] as int], q)
    &&& forall|k: int| 0 <= k < rows.len() && selected(rows[k], q) ==> idx.contains(k as usize)
    &&& forall|i: int, j: int|
        0 <= i < j < idx.len() ==> row_before(rows[idx[i] as int], rows[idx[j] as int], by_updated, asc)
}

/// First position of a page: a negative offset counts as zero.
pub open spec fn window_start(n: int, offset: int) -> int {
    if offset < 0 { 0 } else if offset > n { n } else { offset }
}

/// End of a page: a negative limit means no bound.
pub open spec fn window_end(n: int, offset: int, limit: int) -> int {
    let s = window_start(n, offset);
    if limit < 0 || s + limit > n { n } else { s + limit }
}

/// `r` is the page `[offset, offset + limit)` of the selected rows in order.
pub open spec fn listed(
    rows: Seq<RowView>,
    q: Option<Seq<char>>,
    by_updated: bool,
    asc: bool,
    offset: int,
    limit: int,
    r: Seq<MemoView>,
) -> bool {
    exists|idx: Seq<usize>|
        is_listing(rows, idx, q, by_updated, asc) && r == idx.subrange(
            window_start(idx.len() as int, offset),
            window_end(idx.len() as int, offset, limit),
        ).map_values(|k: usize| memo_of_row(rows[k as int]))
}

/// Only `"updated_at"` orders by update time; anything else by creation time.
pub open spec fn orders_by_updated(order_by: Seq<char>) -> bool {
    order_by == "updated_at"@
}

/// Only `"asc"` is ascending; anything else is descending.
pub open spec fn ascending(order_dir: Seq<char>) -> bool {
    order_dir == "asc"@
}

/// Updates that clear the error message when none is given: a reset to
/// `idle`, a completion, and the start of a sync (`syncing` with no total).
pub open spec fn clears_error(status: Seq<char>, total: Option<i64>) -> bool {
    status == "idle"@ || status == "completed"@ || (status == "syncing"@ && total is None)
}

/// The status record after `update_sync_status(status, total, error)`;
/// `stamped` tells whether the completion time was set.
pub open spec fn status_updated(
    old: SyncStatusView,
    new: SyncStatusView,
    status: Seq<char>,
    total: Option<i64>,
    error: Option<Seq<char>>,
) -> bool {
    &&& new.id == old.id
    &&& new.status == status
    &&& new.total_memos == match total {
        Some(t) => t as int,
        None => old.total_memos,
    }
    &&& new.error_message == match error {
        Some(e) => Some(e),
        None => if clears_error(status, total) { None } else { old.error_message },
    }
    &&& if error is None && status == "completed"@ {
        new.last_sync_at is Some
    } else {
        new.last_sync_at == old.last_sync_at
    }
}

pub proof fn lemma_key_lt_transitive(a: RowView, b: RowView, c: RowView, by_updated: bool)
    requires
        key_lt(a, b, by_updated),
        key_lt(b, c, by_updated),
    ensures
        key_lt(a, c, by_updated),
{
    let (ka, kb, kc) = (key_of(a, by_updated), key_of(b, by_updated), key_of(c, by_updated));
    if chars_lt(ka, kb) && chars_lt(kb, kc) {
        lemma_chars_lt_transitive(ka, kb, kc);
    }
}

pub proof fn lemma_key_lt_total(a: RowView, b: RowView, by_updated: bool)
    requires
        a.id != b.id,
    ensures
        key_lt(a, b, by_updated) || key_lt(b, a, by_updated),
{
    let (ka, kb) = (key_of(a, by_updated), key_of(b, by_updated));
    if ka != kb {
        lemma_chars_lt_total(ka, kb);
    }
}

/// The local store.
pub struct Database {
    rows: Vec<DbMemo>,
    next_id: i64,
    status: SyncStatus,
}

impl Database {
    /// The stored rows, in insertion order.
    pub closed spec fn rows_view(&self) -> Seq<RowView> {
        self.rows@.map_values(|r: DbMemo| r@)
    }

    /// The id the next new row gets.
    pub closed spec fn next_row_id(&self) -> int {
        self.next_id as int
    }

    pub closed spec fn status_view(&self) -> SyncStatusView {
        self.status@
    }

    /// Slugs and ids are unique, ids are below the next free one, and the
    /// status record is the row with id 1.
    pub closed spec fn wf(&self) -> bool {
        &&& slugs_unique(self.rows_view())
        &&& ids_below(self.rows_view(), self.next_id as int)
        &&& self.status.id == 1
    }

    /// A valid store has unique slugs and row ids below the next free id,
    /// which is what the laws on its rows need; its row count fits in `i64`
    /// and its status record has id 1.
    pub proof fn lemma_valid_rows(&self)
        requires
            self.wf(),
        ensures
            slugs_unique(self.rows_view()),
            ids_below(self.rows_view(), self.next_row_id()),
            self.next_row_id() <= i64::MAX,
            self.rows_view().len() < i64::MAX,
            self.status_view().id == 1,
    {
    }

    /// An empty store whose status is `idle` with no memos.
    pub fn new() -> (r: Database)
        ensures
            r.wf(),
            r.rows_view() == Seq::<RowView>::empty(),
            r.status_view().id == 1,
            r.status_view().status == "idle"@,
            r.status_view().total_memos == 0,
            r.status_view().error_message is None,
            r.status_view().last_sync_at is None,
    {
        let db = Database {
            rows: Vec::new(),
            next_id: 1,
            status: SyncStatus {
                id: 1,
                last_sync_at: None,
                total_memos: 0,
                status: String::from_str("idle"),
                error_message: None,
            },
        };
        assert(db.rows_view() =~= Seq::<RowView>::empty());
        db
    }

    fn find_slug(&self, slug: &String) -> (r: Option<usize>)
        ensures
            match r {
                Some(i) => slug_at(self.rows_view(), slug@, i as int),
                None => forall|i: int| !slug_at(self.rows_view(), slug@, i),
            },
    {
        let mut i: usize = 0;
        while i < self.rows.len()
            invariant
                i <= self.rows@.len(),
                forall|k: int| 0 <= k < i ==> !slug_at(self.rows_view(), slug@, k),
            decreases self.rows@.len() - i,
        {
            if str_eq(self.rows[i].slug.as_str(), slug.as_str()) {
                return Some(i);
            }
            i = i + 1;
        }
        None
    }

    /// Writes one memo whose tag text is already made.
    fn put(&mut self, m: &Memo, tags: String)
        requires
            old(self).wf(),
            old(self).next_id < i64::MAX,
        ensures
            final(self).wf(),
            final(self).status == old(self).status,
            (final(self).rows_view(), final(self).next_row_id()) == upsert_one(
                old(self).rows_view(),
                old(self).next_row_id(),
                m@,
                tags@,
            ),
    {
        let ghost rows0 = self.rows_view();
        let url = match &m.url {
            Some(u) => u.clone(),
            None => String::new(),
        };
        let synced_at = now_rfc3339();
        match self.find_slug(&m.slug) {
            Some(i) => {
                let row = DbMemo {
                    id: self.rows[i].id,
                    slug: copy_string(&self.rows[i].slug),
                    content: m.content.clone(),
                    created_at: copy_string(&self.rows[i].created_at),
                    updated_at: m.updated_at.clone(),
                    tags,
                    url,
                    synced_at,
                };
                self.rows[i] = row;
                proof {
                    assert(slug_at(rows0, m@.slug, i as int));
                    let j = choose|j: int| slug_at(rows0, m@.slug, j);
                    assert(j == i as int);
                    assert(self.rows_view() =~= rows0.update(
                        i as int,
                        refreshed_row(rows0[i as int], m@, tags@),
                    ));
                    let nv = self.rows_view();
                    assert(forall|k: int| 0 <= k < rows0.len() ==> #[trigger] nv[k].slug == rows0[k].slug
                        && nv[k].id == rows0[k].id);
                    assert(slugs_unique(nv));
                    assert forall|a: int, b: int|
                        0 <= a < nv.len() && 0 <= b < nv.len() && a != b implies nv[a].id != nv[b].id by {
                        assert(rows0[a].id != rows0[b].id);
                    }
                    assert(ids_below(nv, self.next_id as int));
                }
            },
            None => {
                let row = DbMemo {
                    id: self.next_id,
                    slug: m.slug.clone(),
                    content: m.content.clone(),
                    created_at: m.created_at.clone(),
                    updated_at: m.updated_at.clone(),
                    tags,
                    url,
                    synced_at,
                };
                self.rows.push(row);
                self.next_id = self.next_id + 1;
                proof {
                    assert(self.rows_view() =~= rows0.push(fresh_row(m@, tags@, old(self).next_id as int)));
                    let nv = self.rows_view();
                    let n0 = rows0.len() as int;
                    assert(forall|k: int| 0 <= k < n0 ==> #[trigger] nv[k] == rows0[k]);
                    assert(nv[n0].slug == m@.slug && nv[n0].id == old(self).next_id);
                    assert forall|a: int, b: int|
                        0 <= a < nv.len() && 0 <= b < nv.len() && a != b implies nv[a].slug != nv[b].slug
                        && nv[a].id != nv[b].id by {
                        if a < n0 && b < n0 {
                            assert(rows0[a].slug != rows0[b].slug);
                            assert(rows0[a].id != rows0[b].id);
                        } else if a == n0 {
                            assert(!slug_at(rows0, m@.slug, b));
                            assert(rows0[b].id < old(self).next_id);
                        } else {
                            assert(!slug_at(rows0, m@.slug, a));
                            assert(rows0[a].id < old(self).next_id);
                        }
                    }
                    assert forall|k: int| 0 <= k < nv.len() implies 1 <= #[trigger] nv[k].id < self.next_id by {
                        if k < n0 {
                            assert(rows0[k].id < old(self).next_id);
                        }
                    }
                    assert(slugs_unique(nv));
                    assert(ids_below(nv, self.next_id as int));
                }
            },
        }
    }

    /// Inserts the memo, or overwrites content, update time, tags and link of
    /// the row with its slug (keeping that row's id and creation time).
    pub fn upsert_memo(&mut self, memo: &Memo) -> (r: Result<(), String>)
        requires
            old(self).wf(),
        ensures
            final(self).wf(),
            final(self).status_view() == old(self).status_view(),
            old(self).next_row_id() == i64::MAX ==> r is Err,
            old(self).next_row_id() < i64::MAX ==> r is Ok,
            r is Err ==> final(self).rows_view() == old(self).rows_view()
                && final(self).next_row_id() == old(self).next_row_id(),
            r is Ok ==> (final(self).rows_view(), final(self).next_row_id()) == upsert_one(
                old(self).rows_view(),
                old(self).next_row_id(),
                memo@,
                tags_json(memo@.tags),
            ),
    {
        if self.next_id == i64::MAX {
            return Err(String::from_str("Failed to upsert memo: row ids exhausted"));
        }
        match encode_tags(&memo.tags) {
            Some(tags) => {
                self.put(memo, tags);
                Ok(())
            },
            None => Err(String::from_str("Failed to serialize tags")),
        }
    }

    /// Upserts the memos in order as one unit: on error nothing is written.
    pub fn bulk_upsert_memos(&mut self, memos: &[Memo]) -> (r: Result<(), String>)
        requires
            old(self).wf(),
        ensures
            final(self).wf(),
            final(self).status_view() == old(self).status_view(),
            old(self).next_row_id() + memos@.len() > i64::MAX ==> r is Err,
            old(self).next_row_id() + memos@.len() <= i64::MAX ==> r is Ok,
            r is Err ==> final(self).rows_view() == old(self).rows_view()
                && final(self).next_row_id() == old(self).next_row_id(),
            r is Ok ==> (final(self).rows_view(), final(self).next_row_id()) == upsert_all(
                old(self).rows_view(),
                old(self).next_row_id(),
                memo_views(memos@),
                tags_json_all(memo_views(memos@)),
            ),
    {
        let n = memos.len();
        if n as u64 > (i64::MAX - self.next_id) as u64 {
            return Err(String::from_str("Failed to upsert memo in transaction: row ids exhausted"));
        }
        let ghost ms = memo_views(memos@);
        let ghost ts = tags_json_all(ms);
        let mut encoded: Vec<String> = Vec::new();
        let mut i: usize = 0;
        while i < n
            invariant
                n == memos@.len(),
                ms == memo_views(memos@),
                ts == tags_json_all(ms),
                i <= n,
                *self == *old(self),
                self.wf(),
                self.next_id as int + n <= i64::MAX,
                encoded@.len() == i,
                forall|k: int| 0 <= k < i ==> encoded@[k]@ == ts[k],
            decreases n - i,
        {
            match encode_tags(&memos[i].tags) {
                Some(t) => encoded.push(t),
                None => {
                    return Err(String::from_str("Failed to serialize tags"));
                },
            }
            i = i + 1;
        }
        let ghost rows0 = self.rows_view();
        let ghost next0 = self.next_row_id();
        proof {
            assert(ms.subrange(0, n as int) =~= ms);
            assert(ts.subrange(0, n as int) =~= ts);
        }
        let mut j: usize = 0;
        while j < n
            invariant
                n == memos@.len(),
                ms == memo_views(memos@),
                ts == tags_json_all(ms),
                j <= n,
                self.wf(),
                self.status_view() == old(self).status_view(),
                self.next_id as int <= next0 + j,
                next0 == old(self).next_row_id(),
                next0 + n <= i64::MAX,
                upsert_all(self.rows_view(), self.next_row_id(), ms.subrange(j as int, n as int), ts.subrange(j as int, n as int))
                    == upsert_all(rows0, next0, ms, ts),
                encoded@.len() == n as int - j,
                forall|k: int| 0 <= k < n - j ==> #[trigger] encoded@[k]@ == ts[j + k],
            decreases n - j,
        {
            proof {
                assert(ms.subrange(j as int, n as int).drop_first() =~= ms.subrange(j + 1, n as int));
                assert(ts.subrange(j as int, n as int).drop_first() =~= ts.subrange(j + 1, n as int));
            }
            let t = encoded.remove(0);
            self.put(&memos[j], t);
            j = j + 1;
        }
        proof {
            assert(ms.subrange(n as int, n as int) =~= Seq::<MemoView>::empty());
            assert(ts.subrange(0, n as int) =~= ts);
            assert(ms.subrange(0, n as int) =~= ms);
        }
        Ok(())
    }

    fn row_before_exec(&self, a: usize, b: usize, by_updated: bool, asc: bool) -> (r: bool)
        requires
            a < self.rows@.len(),
            b < self.rows@.len(),
        ensures
            r == row_before(self.rows_view()[a as int], self.rows_view()[b as int], by_updated, asc),
    {
        let (x, y) = if asc { (a, b) } else { (b, a) };
        let rx = &self.rows[x];
        let ry = &self.rows[y];
        let (kx, ky) = if by_updated {
            (rx.updated_at.as_str(), ry.updated_at.as_str())
        } else {
            (rx.created_at.as_str(), ry.created_at.as_str())
        };
        str_lt(kx, ky) || (str_eq(kx, ky) && rx.id < ry.id)
    }

    fn is_selected(&self, k: usize, q: Option<&str>) -> (r: bool)
        requires
            k < self.rows@.len(),
        ensures
            r == selected(self.rows_view()[k as int], opt_str_view(q)),
    {
        match q {
            None => true,
            Some(q) => str_contains(self.rows[k].content.as_str(), q) || str_contains(
                self.rows[k].tags.as_str(),
                q,
            ),
        }
    }

    /// Indices of the selected rows, sorted by insertion.
    fn listing(&self, q: Option<&str>, by_updated: bool, asc: bool) -> (idx: Vec<usize>)
        requires
            self.wf(),
        ensures
            is_listing(self.rows_view(), idx@, opt_str_view(q), by_updated, asc),
    {
        let ghost rows = self.rows_view();
        let ghost qv = opt_str_view(q);
        let n = self.rows.len();
        let mut out: Vec<usize> = Vec::new();
        let mut i: usize = 0;
        while i < n
            invariant
                n == rows.len(),
                rows == self.rows_view(),
                qv == opt_str_view(q),
                self.wf(),
                i <= n,
                forall|a: int| 0 <= a < out@.len() ==> #[trigger] out@[a] < i && selected(rows[out@[a] as int], qv),
                forall|k: int| 0 <= k < i && selected(rows[k], qv) ==> out@.contains(k as usize),
                forall|a: int, b: int|
                    0 <= a < b < out@.len() ==> row_before(rows[out@[a] as int], rows[out@[b] as int], by_updated, asc),
            decreases n - i,
        {
            if self.is_selected(i, q) {
                let mut p: usize = 0;
                while p < out.len()
                    invariant
                        n == rows.len(),
                        rows == self.rows_view(),
                        i < n,
                        p <= out@.len(),
                        forall|a: int| 0 <= a < out@.len() ==> #[trigger] out@[a] < i,
                        forall|a: int| 0 <= a < p ==> !row_before(rows[i as int], #[trigger] rows[out@[a] as int], by_updated, asc),
                        forall|a: int, b: int|
                            0 <= a < b < out@.len() ==> row_before(rows[out@[a] as int], rows[out@[b] as int], by_updated, asc),
                    ensures
                        p <= out@.len(),
                        forall|a: int| 0 <= a < p ==> !row_before(rows[i as int], #[trigger] rows[out@[a] as int], by_updated, asc),
                        p < out@.len() ==> row_before(rows[i as int], rows[out@[p as int] as int], by_updated, asc),
                    decreases out@.len() - p,
                {
                    if self.row_before_exec(i, out[p], by_updated, asc) {
                        break;
                    }
                    p = p + 1;
                }
                let ghost old_out = out@;
                out.insert(p, i);
                proof {
                    let ri = rows[i as int];
                    assert(out@ =~= old_out.insert(p as int, i));
                    assert forall|a: int| 0 <= a < p implies row_before(#[trigger] rows[old_out[a] as int], ri, by_updated, asc) by {
                        let ra = rows[old_out[a] as int];
                        assert(ra.id != ri.id);
                        lemma_key_lt_total(ra, ri, by_updated);
                    }
                    assert forall|a: int| p <= a < old_out.len() implies row_before(ri, #[trigger] rows[old_out[a] as int], by_updated, asc) by {
                        if a > p {
                            let rp = rows[old_out[p as int] as int];
                            let ra = rows[old_out[a] as int];
                            assert(row_before(rp, ra, by_updated, asc));
                            if asc {
                                lemma_key_lt_transitive(ri, rp, ra, by_updated);
                            } else {
                                lemma_key_lt_transitive(ra, rp, ri, by_updated);
                            }
                        }
                    }
                    assert forall|a: int, b: int| 0 <= a < b < out@.len() implies row_before(
                        rows[out@[a] as int], rows[out@[b] as int], by_updated, asc) by {
                        if b < p {
                        } else if b == p {
                        } else if a < p {
                            let ra = rows[old_out[a] as int];
                            let rb = rows[old_out[b - 1] as int];
                            if asc {
                                lemma_key_lt_transitive(ra, ri, rb, by_updated);
                            } else {
                                lemma_key_lt_transitive(rb, ri, ra, by_updated);
                            }
                        } else if a == p {
                        } else {
                            assert(out@[a] == old_out[a - 1] && out@[b] == old_out[b - 1]);
                        }
                    }
                    assert forall|k: int| 0 <= k < i + 1 && selected(rows[k], qv) implies out@.contains(k as usize) by {
                        if k == i {
                            assert(out@[p as int] == i);
                        } else {
                            assert(old_out.contains(k as usize));
                            let a = choose|a: int| 0 <= a < old_out.len() && old_out[a] == k as usize;
                            if a < p {
                                assert(out@[a] == k as usize);
                            } else {
                                assert(out@[a + 1] == k as usize);
                            }
                        }
                    }
                }
            } else {
                proof {
                    assert(!selected(rows[i as int], qv));
                    assert forall|k: int| 0 <= k < i + 1 && selected(rows[k], qv) implies out@.contains(k as usize) by {
                        assert(k != i);
                    }
                }
            }
            i = i + 1;
        }
        out
    }

    fn page_of(&self, idx: &Vec<usize>, offset: i64, limit: i64) -> (r: Vec<Memo>)
        requires
            forall|a: int| 0 <= a < idx@.len() ==> #[trigger] idx@[a] < self.rows@.len(),
        ensures
            memo_views(r@) == idx@.subrange(
                window_start(idx@.len() as int, offset as int),
                window_end(idx@.len() as int, offset as int, limit as int),
            ).map_values(|k: usize| memo_of_row(self.rows_view()[k as int])),
    {
        let n = idx.len();
        let start: usize = if offset < 0 {
            0
        } else if offset as u64 > n as u64 {
            n
        } else {
            offset as usize
        };
        let end: usize = if limit < 0 || limit as u64 > (n - start) as u64 {
            n
        } else {
            start + limit as usize
        };
        let ghost want = idx@.subrange(start as int, end as int).map_values(
            |k: usize| memo_of_row(self.rows_view()[k as int]),
        );
        let mut r: Vec<Memo> = Vec::new();
        let mut k: usize = start;
        while k < end
            invariant
                start <= k <= end,
                end <= n,
                n == idx@.len(),
                forall|a: int| 0 <= a < idx@.len() ==> #[trigger] idx@[a] < self.rows@.len(),
                want == idx@.subrange(start as int, end as int).map_values(
                    |k: usize| memo_of_row(self.rows_view()[k as int]),
                ),
                r@.len() == k - start,
                forall|a: int| 0 <= a < k - start ==> #[trigger] r@[a]@ == want[a],
            decreases end - k,
        {
            let row = &self.rows[idx[k]];
            let m = Memo {
                slug: row.slug.clone(),
                content: row.content.clone(),
                created_at: row.created_at.clone(),
                updated_at: row.updated_at.clone(),
                tags: decode_tags(&row.tags),
                url: Some(row.url.clone()),
            };
            proof {
                assert(m@ == memo_of_row(self.rows_view()[idx@[k as int] as int]));
            }
            r.push(m);
            k = k + 1;
        }
        assert(memo_views(r@) =~= want);
        r
    }

    /// One page of memos ordered by `order_by` (`"updated_at"`, else
    /// creation time) in direction `order_dir` (`"asc"`, else descending),
    /// skipping `offset` and taking at most `limit` (all if negative).
    pub fn get_memos_page(&self, order_by: &str, order_dir: &str, offset: i64, limit: i64) -> (r:
        Vec<Memo>)
        requires
            self.wf(),
        ensures
            listed(
                self.rows_view(),
                None,
                orders_by_updated(order_by@),
                ascending(order_dir@),
                offset as int,
                limit as int,
                memo_views(r@),
            ),
    {
        let by_updated = str_eq(order_by, "updated_at");
        let asc = str_eq(order_dir, "asc");
        let idx = self.listing(None, by_updated, asc);
        let r = self.page_of(&idx, offset, limit);
        assert(is_listing(self.rows_view(), idx@, None, by_updated, asc));
        r
    }

    /// Like `get_memos_page`, over the memos whose content or tag text
    /// contains `query` (case-sensitive).
    pub fn search_memos(
        &self,
        query: &str,
        order_by: &str,
        order_dir: &str,
        offset: i64,
        limit: i64,
    ) -> (r: Vec<Memo>)
        requires
            self.wf(),
        ensures
            listed(
                self.rows_view(),
                Some(query@),
                orders_by_updated(order_by@),
                ascending(order_dir@),
                offset as int,
                limit as int,
                memo_views(r@),
            ),
    {
        let by_updated = str_eq(order_by, "updated_at");
        let asc = str_eq(order_dir, "asc");
        let idx = self.listing(Some(query), by_updated, asc);
        let r = self.page_of(&idx, offset, limit);
        assert(is_listing(self.rows_view(), idx@, Some(query@), by_updated, asc));
        r
    }

    /// Every memo, newest creation time first.
    pub fn get_all_memos(&self) -> (r: Vec<Memo>)
        requires
            self.wf(),
        ensures
            listed(self.rows_view(), None, false, false, 0, -1, memo_views(r@)),
    {
        let idx = self.listing(None, false, false);
        let r = self.page_of(&idx, 0, -1);
        assert(is_listing(self.rows_view(), idx@, None, false, false));
        r
    }

    /// Sets the status text, the total when one is given, and the error
    /// message when one is given; with no error message, `idle`, `syncing`
    /// and `completed` clear it, and `completed` stamps the completion time.
    pub fn update_sync_status(
        &mut self,
        status: &str,
        total_memos: Option<i64>,
        error_message: Option<&str>,
    )
        requires
            old(self).wf(),
        ensures
            final(self).wf(),
            final(self).rows_view() == old(self).rows_view(),
            final(self).next_row_id() == old(self).next_row_id(),
            status_updated(
                old(self).status_view(),
                final(self).status_view(),
                status@,
                total_memos,
                opt_str_view(error_message),
            ),
    {
        let completed = str_eq(status, "completed");
        let clears = str_eq(status, "idle") || completed || (str_eq(status, "syncing")
            && total_memos.is_none());
        if let Some(t) = total_memos {
            self.status.total_memos = t;
        }
        match error_message {
            Some(e) => {
                self.status.error_message = Some(String::from_str(e));
            },
            None => {
                if clears {
                    self.status.error_message = None;
                }
                if completed {
                    self.status.last_sync_at = Some(now_rfc3339());
                }
            },
        }
        self.status.status = String::from_str(status);
    }

    /// Deletes every memo, then resets the status to `idle` with no memos
    /// and no error.
    pub fn clear_all_memos(&mut self)
        requires
            old(self).wf(),
        ensures
            final(self).wf(),
            final(self).rows_view() == Seq::<RowView>::empty(),
            final(self).status_view().status == "idle"@,
            final(self).status_view().total_memos == 0,
            final(self).status_view().error_message is None,
            final(self).status_view().last_sync_at == old(self).status_view().last_sync_at,
    {
        self.rows.clear();
        assert(self.rows_view() =~= Seq::<RowView>::empty());
        self.update_sync_status("idle", Some(0), None);
        proof {
            reveal_strlit("idle");
            reveal_strlit("completed");
            assert("idle"@.len() != "completed"@.len());
        }
    }

    /// Replaces the status record with one read back from saved state; its
    /// id stays 1.
    pub fn restore_sync_status(&mut self, st: SyncStatus)
        requires
            old(self).wf(),
        ensures
            final(self).wf(),
            final(self).rows_view() == old(self).rows_view(),
            final(self).next_row_id() == old(self).next_row_id(),
            final(self).status_view() == (SyncStatusView { id: 1, ..st@ }),
    {
        self.status = SyncStatus { id: 1, ..st };
    }

    /// Puts back a row read from saved state, as it was: its slug must be new
    /// and its id at least the next free one (rows come back in id order).
    pub fn restore_row(&mut self, row: DbMemo) -> (r: Result<(), String>)
        requires
            old(self).wf(),
        ensures
            final(self).wf(),
            final(self).status_view() == old(self).status_view(),
            r is Ok <==> (!slug_set(old(self).rows_view()).contains(row@.slug) && old(self).next_row_id()
                <= row@.id < i64::MAX),
            r is Ok ==> final(self).rows_view() == old(self).rows_view().push(row@)
                && final(self).next_row_id() == row@.id + 1,
            r is Err ==> final(self).rows_view() == old(self).rows_view()
                && final(self).next_row_id() == old(self).next_row_id(),
    {
        let ghost rows0 = self.rows_view();
        match self.find_slug(&row.slug) {
            Some(i) => {
                assert(slug_set(rows0).contains(row@.slug));
                return Err(String::from_str("Failed to restore memo: slug already stored"));
            },
            None => {
                assert(!slug_set(rows0).contains(row@.slug));
            },
        }
        if row.id < self.next_id || row.id == i64::MAX {
            return Err(String::from_str("Failed to restore memo: row id out of order"));
        }
        let ghost rv = row@;
        self.next_id = row.id + 1;
        self.rows.push(row);
        proof {
            assert(self.rows_view() =~= rows0.push(rv));
            let nv = self.rows_view();
            let n0 = rows0.len() as int;
            assert(forall|k: int| 0 <= k < n0 ==> #[trigger] nv[k] == rows0[k]);
            assert forall|a: int, b: int|
                0 <= a < nv.len() && 0 <= b < nv.len() && a != b implies nv[a].slug != nv[b].slug
                && nv[a].id != nv[b].id by {
                if a < n0 && b < n0 {
                    assert(rows0[a].slug != rows0[b].slug);
                    assert(rows0[a].id != rows0[b].id);
                } else if a == n0 {
                    assert(!slug_at(rows0, rv.slug, b));
                    assert(rows0[b].id < old(self).next_id);
                } else {
                    assert(!slug_at(rows0, rv.slug, a));
                    assert(rows0[a].id < old(self).next_id);
                }
            }
            assert forall|k: int| 0 <= k < nv.len() implies 1 <= #[trigger] nv[k].id < self.next_id by {
                if k < n0 {
                    assert(rows0[k].id < old(self).next_id);
                }
            }
            assert(slugs_unique(nv));
            assert(ids_below(nv, self.next_id as int));
        }
        Ok(())
    }

    /// Copies of the stored rows, in insertion order.
    pub fn get_rows(&self) -> (r: Vec<DbMemo>)
        ensures
            r@.map_values(|m: DbMemo| m@) == self.rows_view(),
    {
        let mut out: Vec<DbMemo> = Vec::new();
        let mut i: usize = 0;
        while i < self.rows.len()
            invariant
                i <= self.rows@.len(),
                out@.len() == i,
                forall|k: int| 0 <= k < i ==> #[trigger] out@[k]@ == self.rows@[k]@,
            decreases self.rows@.len() - i,
        {
            let row = &self.rows[i];
            out.push(DbMemo {
                id: row.id,
                slug: copy_string(&row.slug),
                content: copy_string(&row.content),
                created_at: copy_string(&row.created_at),
                updated_at: copy_string(&row.updated_at),
                tags: copy_string(&row.tags),
                url: copy_string(&row.url),
                synced_at: copy_string(&row.synced_at),
            });
            i = i + 1;
        }
        assert(out@.map_values(|m: DbMemo| m@) =~= self.rows_view());
        out
    }

    /// Number of stored memos.
    pub fn get_memo_count(&self) -> (r: i64)
        requires
            self.wf(),
        ensures
            r as int == self.rows_view().len(),
    {
        self.rows.len() as i64
    }

    /// The status record.
    pub fn get_sync_status(&self) -> (r: SyncStatus)
        ensures
            r@ == self.status_view(),
            self.wf() ==> r.id == 1,
    {
        self.status.copied()
    }
}

} // verus!

verus! {

proof fn lemma_row_before_strict(a: RowView, b: RowView, by_updated: bool, asc: bool)
    ensures
        !row_before(a, a, by_updated, asc),
        !(row_before(a, b, by_updated, asc) && row_before(b, a, by_updated, asc)),
{
    lemma_chars_lt_irreflexive(key_of(a, by_updated));
    if row_before(a, b, by_updated, asc) && row_before(b, a, by_updated, asc) {
        lemma_key_lt_transitive(a, b, a, by_updated);
    }
}

proof fn lemma_listings_agree(
    rows: Seq<RowView>,
    x: Seq<usize>,
    y: Seq<usize>,
    q: Option<Seq<char>>,
    by_updated: bool,
    asc: bool,
    n: int,
)
    requires
        forall|i: int, j: int| 0 <= i < rows.len() && 0 <= j < rows.len() && i != j ==> rows[i].id != rows[j].id,
        is_listing(rows, x, q, by_updated, asc),
        is_listing(rows, y, q, by_updated, asc),
        0 <= n <= x.len(),
        n <= y.len(),
    ensures
        forall|j: int| 0 <= j < n ==> x[j] == y[j],
    decreases n,
{
    if n > 0 {
        lemma_listings_agree(rows, x, y, q, by_updated, asc, n - 1);
        let i = n - 1;
        if x[i] != y[i] {
            let a = x[i];
            let b = y[i];
            assert(y.contains(a));
            assert(x.contains(b));
            let j = choose|j: int| 0 <= j < y.len() && y[j] == a;
            let k = choose|k: int| 0 <= k < x.len() && x[k] == b;
            lemma_row_before_strict(rows[a as int], rows[b as int], by_updated, asc);
            lemma_row_before_strict(rows[b as int], rows[a as int], by_updated, asc);
            if j < i {
                assert(x[j] == a);
                assert(row_before(rows[x[j] as int], rows[x[i] as int], by_updated, asc));
            } else if k < i {
                assert(y[k] == b);
                assert(row_before(rows[y[k] as int], rows[y[i] as int], by_updated, asc));
            } else {
                assert(row_before(rows[y[i] as int], rows[y[j] as int], by_updated, asc));
                assert(row_before(rows[x[i] as int], rows[x[k] as int], by_updated, asc));
            }
        }
    }
}

/// A listing is determined by the rows, the query and the order: two
/// listings of the same rows are equal, so `listed` pins down one page.
pub proof fn lemma_listing_unique(
    rows: Seq<RowView>,
    x: Seq<usize>,
    y: Seq<usize>,
    q: Option<Seq<char>>,
    by_updated: bool,
    asc: bool,
)
    requires
        forall|i: int, j: int| 0 <= i < rows.len() && 0 <= j < rows.len() && i != j ==> rows[i].id != rows[j].id,
        is_listing(rows, x, q, by_updated, asc),
        is_listing(rows, y, q, by_updated, asc),
    ensures
        x == y,
{
    let n = if x.len() < y.len() { x.len() as int } else { y.len() as int };
    lemma_listings_agree(rows, x, y, q, by_updated, asc, n);
    if x.len() > y.len() {
        let i = y.len() as int;
        let a = x[i];
        assert(y.contains(a));
        let j = choose|j: int| 0 <= j < y.len() && y[j] == a;
        assert(x[j] == a);
        lemma_row_before_strict(rows[a as int], rows[a as int], by_updated, asc);
        assert(row_before(rows[x[j] as int], rows[x[i] as int], by_updated, asc));
    } else if y.len() > x.len() {
        let i = x.len() as int;
        let b = y[i];
        assert(x.contains(b));
        let j = choose|j: int| 0 <= j < x.len() && x[j] == b;
        assert(y[j] == b);
        lemma_row_before_strict(rows[b as int], rows[b as int], by_updated, asc);
        assert(row_before(rows[y[j] as int], rows[y[i] as int], by_updated, asc));
    }
    assert(x =~= y);
}

/// The slugs present in `rows`.
pub open spec fn slug_set(rows: Seq<RowView>) -> Set<Seq<char>> {
    Set::new(|s: Seq<char>| exists|i: int| slug_at(rows, s, i))
}

/// With unique slugs there is one row per slug.
pub proof fn lemma_row_count(rows: Seq<RowView>)
    requires
        slugs_unique(rows),
    ensures
        rows.len() == slug_set(rows).len(),
{
    let sl = rows.map_values(|r: RowView| r.slug);
    assert(sl.no_duplicates()) by {
        assert forall|i: int, j: int| 0 <= i < sl.len() && 0 <= j < sl.len() && i != j implies sl[i]
            != sl[j] by {
            assert(rows[i].slug != rows[j].slug);
        }
    }
    sl.unique_seq_to_set();
    assert forall|s: Seq<char>| sl.to_set().contains(s) == slug_set(rows).contains(s) by {
        if sl.contains(s) {
            let k = choose|k: int| 0 <= k < sl.len() && sl[k] == s;
            assert(slug_at(rows, s, k));
        }
        if slug_set(rows).contains(s) {
            let k = choose|k: int| slug_at(rows, s, k);
            assert(sl[k] == s);
        }
    }
    assert(sl.to_set() =~= slug_set(rows));
}

/// How many of `ms` carry a slug already in `seen` or earlier in `ms`.
pub open spec fn duplicates(seen: Set<Seq<char>>, ms: Seq<MemoView>) -> nat
    decreases ms.len(),
{
    if ms.len() == 0 {
        0
    } else if seen.contains(ms[0].slug) {
        1 + duplicates(seen, ms.drop_first())
    } else {
        duplicates(seen.insert(ms[0].slug), ms.drop_first())
    }
}

/// One upsert keeps slugs and ids unique, adds the memo's slug to the
/// slug set, and grows the rows by one exactly when the slug was new.
pub proof fn lemma_upsert_one(rows: Seq<RowView>, next_id: int, m: MemoView, tags: Seq<char>)
    requires
        slugs_unique(rows),
        ids_below(rows, next_id),
    ensures
        ({
            let (r1, n1) = upsert_one(rows, next_id, m, tags);
            &&& slugs_unique(r1)
            &&& ids_below(r1, n1)
            &&& slug_set(r1) == slug_set(rows).insert(m.slug)
            &&& r1.len() == rows.len() + if slug_set(rows).contains(m.slug) { 0int } else { 1int }
            &&& exists|i: int|
                slug_at(r1, m.slug, i) && r1[i].content == m.content && r1[i].created_at == if slug_set(
                    rows,
                ).contains(m.slug) {
                    rows[i].created_at
                } else {
                    m.created_at
                }
        }),
{
    let (r1, n1) = upsert_one(rows, next_id, m, tags);
    if exists|i: int| slug_at(rows, m.slug, i) {
        let i = choose|i: int| slug_at(rows, m.slug, i);
        assert(slug_set(rows).contains(m.slug));
        assert(forall|k: int| 0 <= k < rows.len() ==> #[trigger] r1[k].slug == rows[k].slug && r1[k].id == rows[k].id);
        assert forall|a: int, b: int| 0 <= a < r1.len() && 0 <= b < r1.len() && a != b implies r1[a].id != r1[b].id by {
            assert(rows[a].id != rows[b].id);
        }
        assert(slug_set(r1) =~= slug_set(rows).insert(m.slug)) by {
            assert forall|s: Seq<char>| slug_set(rows).insert(m.slug).contains(s) implies slug_set(r1).contains(s) by {
                if s == m.slug {
                    assert(slug_at(r1, s, i));
                } else {
                    assert(slug_set(rows).contains(s));
                    let k = choose|k: int| slug_at(rows, s, k);
                    assert(slug_at(r1, s, k));
                }
            }
            assert forall|s: Seq<char>| slug_set(r1).contains(s) implies slug_set(rows).insert(m.slug).contains(s) by {
                if slug_set(r1).contains(s) {
                    let k = choose|k: int| slug_at(r1, s, k);
                    assert(slug_at(rows, s, k));
                }
            }
        }
        assert(slug_at(r1, m.slug, i));
    } else {
        let n0 = rows.len() as int;
        assert(!slug_set(rows).contains(m.slug));
        assert(forall|k: int| 0 <= k < n0 ==> #[trigger] r1[k] == rows[k]);
        assert forall|a: int, b: int|
            0 <= a < r1.len() && 0 <= b < r1.len() && a != b implies r1[a].slug != r1[b].slug && r1[a].id
            != r1[b].id by {
            if a < n0 && b < n0 {
                assert(rows[a].slug != rows[b].slug);
                assert(rows[a].id != rows[b].id);
            } else if a == n0 {
                assert(!slug_at(rows, m.slug, b));
                assert(rows[b].id < next_id);
            } else {
                assert(!slug_at(rows, m.slug, a));
                assert(rows[a].id < next_id);
            }
        }
        assert forall|k: int| 0 <= k < r1.len() implies 1 <= #[trigger] r1[k].id < n1 by {
            if k < n0 {
                assert(rows[k].id < next_id);
            }
        }
        assert(slug_set(r1) =~= slug_set(rows).insert(m.slug)) by {
            assert forall|s: Seq<char>| slug_set(rows).insert(m.slug).contains(s) implies slug_set(r1).contains(s) by {
                if s == m.slug {
                    assert(slug_at(r1, s, n0));
                } else {
                    assert(slug_set(rows).contains(s));
                    let k = choose|k: int| slug_at(rows, s, k);
                    assert(slug_at(r1, s, k));
                }
            }
            assert forall|s: Seq<char>| slug_set(r1).contains(s) implies slug_set(rows).insert(m.slug).contains(s) by {
                if slug_set(r1).contains(s) {
                    let k = choose|k: int| slug_at(r1, s, k);
                    if k < n0 {
                        assert(slug_at(rows, s, k));
                    }
                }
            }
        }
        assert(slug_at(r1, m.slug, n0));
    }
}

/// Upserting the same slug twice leaves exactly one row with that slug: it
/// holds the second memo's content, and its creation time is the one
/// stored first (the existing row's, else the first memo's); the second
/// write adds no row.
pub proof fn lemma_upsert_twice(
    rows: Seq<RowView>,
    next_id: int,
    m1: MemoView,
    t1: Seq<char>,
    m2: MemoView,
    t2: Seq<char>,
)
    requires
        slugs_unique(rows),
        ids_below(rows, next_id),
        m1.slug == m2.slug,
    ensures
        ({
            let (r1, n1) = upsert_one(rows, next_id, m1, t1);
            let (r2, n2) = upsert_one(r1, n1, m2, t2);
            &&& slugs_unique(r2)
            &&& r2.len() == r1.len()
            &&& exists|i: int|
                slug_at(r2, m1.slug, i) && r2[i].content == m2.content && r2[i].created_at == if slug_set(
                    rows,
                ).contains(m1.slug) {
                    rows[i].created_at
                } else {
                    m1.created_at
                }
        }),
{
    let (r1, n1) = upsert_one(rows, next_id, m1, t1);
    lemma_upsert_one(rows, next_id, m1, t1);
    lemma_upsert_one(r1, n1, m2, t2);
    let (r2, n2) = upsert_one(r1, n1, m2, t2);
    let i = choose|i: int|
        slug_at(r1, m1.slug, i) && r1[i].content == m1.content && r1[i].created_at == if slug_set(
            rows,
        ).contains(m1.slug) {
            rows[i].created_at
        } else {
            m1.created_at
        };
    assert(slug_set(r1).contains(m1.slug));
    let j = choose|j: int| slug_at(r2, m2.slug, j) && r2[j].content == m2.content && r2[j].created_at == r1[j].created_at;
    assert(i == j);
}

/// Upserting `ms` in order into rows whose slugs are `slug_set(rows)` adds
/// exactly one row per record whose slug was not seen before: the count
/// grows by the number of records minus the duplicates.
pub proof fn lemma_count_after_upserts(
    rows: Seq<RowView>,
    next_id: int,
    ms: Seq<MemoView>,
    tags: Seq<Seq<char>>,
)
    requires
        slugs_unique(rows),
        ids_below(rows, next_id),
    ensures
        ({
            let (r, n) = upsert_all(rows, next_id, ms, tags);
            &&& slugs_unique(r)
            &&& ids_below(r, n)
            &&& r.len() == rows.len() + ms.len() - duplicates(slug_set(rows), ms)
            &&& slug_set(r) == slug_set(rows) + ms.map_values(|m: MemoView| m.slug).to_set()
        }),
    decreases ms.len(),
{
    if ms.len() == 0 {
        assert(ms.map_values(|m: MemoView| m.slug).to_set() =~= Set::empty());
        assert(slug_set(rows) + Set::empty() =~= slug_set(rows));
    } else {
        let (r1, n1) = upsert_one(rows, next_id, ms[0], tags[0]);
        lemma_upsert_one(rows, next_id, ms[0], tags[0]);
        lemma_count_after_upserts(r1, n1, ms.drop_first(), tags.drop_first());
        let all = ms.map_values(|m: MemoView| m.slug);
        let rest = ms.drop_first().map_values(|m: MemoView| m.slug);
        assert(all =~= seq![ms[0].slug] + rest);
        assert(all.to_set() =~= rest.to_set().insert(ms[0].slug)) by {
            assert forall|s: Seq<char>| all.to_set().contains(s) == rest.to_set().insert(ms[0].slug).contains(s) by {
                if all.contains(s) {
                    let k = choose|k: int| 0 <= k < all.len() && all[k] == s;
                    if k > 0 {
                        assert(rest[k - 1] == s);
                    }
                }
                if rest.contains(s) {
                    let k = choose|k: int| 0 <= k < rest.len() && rest[k] == s;
                    assert(all[k + 1] == s);
                }
                if s == ms[0].slug {
                    assert(all[0] == s);
                }
            }
        }
        assert(slug_set(r1) + rest.to_set() =~= slug_set(rows) + all.to_set());
        if slug_set(rows).contains(ms[0].slug) {
            assert(slug_set(r1) =~= slug_set(rows));
        }
    }
}

proof fn lemma_duplicates_bounded(seen: Set<Seq<char>>, ms: Seq<MemoView>)
    ensures
        duplicates(seen, ms) <= ms.len(),
    decreases ms.len(),
{
    if ms.len() > 0 {
        lemma_duplicates_bounded(seen, ms.drop_first());
        lemma_duplicates_bounded(seen.insert(ms[0].slug), ms.drop_first());
    }
}

/// Upserts never remove rows: the stored count after a batch is at least
/// the count before it, so the counts a run reports never go down.
pub proof fn lemma_count_never_drops(
    rows: Seq<RowView>,
    next_id: int,
    ms: Seq<MemoView>,
    tags: Seq<Seq<char>>,
)
    requires
        slugs_unique(rows),
        ids_below(rows, next_id),
    ensures
        upsert_all(rows, next_id, ms, tags).0.len() >= rows.len(),
{
    lemma_count_after_upserts(rows, next_id, ms, tags);
    lemma_duplicates_bounded(slug_set(rows), ms);
}

/// Upserting two batches one after the other is upserting their
/// concatenation: a run that persists page after page ends where one
/// upsert of all its records would.
pub proof fn lemma_upsert_batches(
    rows: Seq<RowView>,
    next_id: int,
    a: Seq<MemoView>,
    ta: Seq<Seq<char>>,
    b: Seq<MemoView>,
    tb: Seq<Seq<char>>,
)
    requires
        ta.len() == a.len(),
    ensures
        ({
            let (r1, n1) = upsert_all(rows, next_id, a, ta);
            upsert_all(r1, n1, b, tb)
        }) == upsert_all(rows, next_id, a + b, ta + tb),
    decreases a.len(),
{
    if a.len() > 0 {
        let (r0, n0) = upsert_one(rows, next_id, a[0], ta[0]);
        lemma_upsert_batches(r0, n0, a.drop_first(), ta.drop_first(), b, tb);
        assert((a + b).drop_first() =~= a.drop_first() + b);
        assert((ta + tb).drop_first() =~= ta.drop_first() + tb);
        assert((a + b)[0] == a[0]);
        assert((ta + tb)[0] == ta[0]);
    } else {
        assert(a + b =~= b);
        assert(ta + tb =~= tb);
    }
}

/// An order field other than `"updated_at"` lists exactly as
/// `"created_at"` does, whatever the direction.
pub proof fn lemma_unknown_order_falls_back(
    rows: Seq<RowView>,
    q: Option<Seq<char>>,
    order_by: Seq<char>,
    order_dir: Seq<char>,
    offset: int,
    limit: int,
    r: Seq<MemoView>,
)
    requires
        order_by != "updated_at"@,
    ensures
        listed(rows, q, orders_by_updated(order_by), ascending(order_dir), offset, limit, r)
            == listed(rows, q, orders_by_updated("created_at"@), ascending(order_dir), offset, limit, r),
{
    reveal_strlit("updated_at");
    reveal_strlit("created_at");
    assert("created_at"@[0] != "updated_at"@[0]);
}

/// A direction other than `"asc"` lists exactly as `"desc"` does.
pub proof fn lemma_unknown_direction_falls_back(
    rows: Seq<RowView>,
    q: Option<Seq<char>>,
    order_by: Seq<char>,
    order_dir: Seq<char>,
    offset: int,
    limit: int,
    r: Seq<MemoView>,
)
    requires
        order_dir != "asc"@,
    ensures
        listed(rows, q, orders_by_updated(order_by), ascending(order_dir), offset, limit, r)
            == listed(rows, q, orders_by_updated(order_by), ascending("desc"@), offset, limit, r),
{
    reveal_strlit("asc");
    reveal_strlit("desc");
    assert("desc"@.len() != "asc"@.len());
}

} // verus!
