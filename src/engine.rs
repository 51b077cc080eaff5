//! The decisions of an incremental sync run. The caller fetches pages from
//! the remote source; the run says what to fetch next, deduplicates each
//! page, advances the cursor, persists the page and reports progress.
use vstd::prelude::*;
use crate::memo::{ApiMemo, Memo, MemoView, PagedResponse, SyncProgress, copy_opt_string, copy_strings, opt_view, strings_view};
use crate::store::{
    Database, duplicates, lemma_count_after_upserts, lemma_row_count, memo_views, slug_set, status_updated, tags_json_all,
    upsert_all,
};
use crate::text::{decimal_string, decimal_text, str_eq};

verus! {

/// A page shorter than this ends the run, unless it is a first unproductive one.
pub const PAGE_LIMIT: usize = 200;

/// At most this many pages are fetched in one run.
pub const MAX_ITERATIONS: u64 = 100;

/// What `html2text::from_read` makes of markup at width 80 (`None` where it
/// reports an error).
pub uninterp spec fn plain_text(html: Seq<char>) -> Option<Seq<char>>;

/// The epoch seconds that `chrono::NaiveDateTime::parse_from_str` reads
/// from `text` in `format`, taken as UTC (`None` where it does not parse).
pub uninterp spec fn parsed_epoch(text: Seq<char>, format: Seq<char>) -> Option<i64>;

/// `c` is the letter `l`, in either ASCII case (`l` lower-case).
pub open spec fn letter_eq(c: char, l: char) -> bool {
    (c as int) == (l as int) || (c as int) + 32 == (l as int)
}

/// `w` occurs at `i` in `s`, ignoring ASCII case.
pub open spec fn word_at(s: Seq<char>, w: Seq<char>, i: int) -> bool {
    0 <= i && i + w.len() <= s.len() && forall|k: int| 0 <= k < w.len() ==> letter_eq(
        #[trigger] s[i + k],
        w[k],
    )
}

/// HTML whitespace, which may stand between an attribute name and its `=`.
pub open spec fn html_space(c: char) -> bool {
    c == ' ' || c == '\t' || c == '\n' || c == '\r' || (c as int) == 0x0C
}

/// `w` at `i` is followed, after HTML whitespace, by `=`: it may be an
/// attribute given a value.
pub open spec fn assigned_at(s: Seq<char>, w: Seq<char>, i: int) -> bool {
    word_at(s, w, i) && exists|j: int|
        i + w.len() <= j < s.len() && s[j] == '=' && forall|k: int|
            i + w.len() <= k < j ==> html_space(#[trigger] s[k])
}

/// One of the numeric attributes that html2text reads is set at `i`.
pub open spec fn numeric_attr_at(s: Seq<char>, i: int) -> bool {
    assigned_at(s, "start"@, i) || assigned_at(s, "colspan"@, i) || assigned_at(s, "rowspan"@, i)
}

/// Markup that html2text converts without panicking: it sets none of the
/// numeric attributes html2text parses (`start` of an ordered list,
/// `colspan`, `rowspan`), since a value near the integer limit overflows
/// html2text's list numbering or column arithmetic.
pub open spec fn safe_markup(html: Seq<char>) -> bool {
    !exists|i: int| numeric_attr_at(html, i)
}

fn is_html_space(c: char) -> (r: bool)
    ensures
        r == html_space(c),
{
    c == ' ' || c == '\t' || c == '\n' || c == '\r' || c as u32 == 0x0C
}

fn assigned_at_exec(s: &str, n: usize, w: &str, i: usize) -> (r: bool)
    requires
        n == s@.len(),
        i <= n,
    ensures
        r == assigned_at(s@, w@, i as int),
{
    let m = w.unicode_len();
    if m > n - i {
        return false;
    }
    let mut k: usize = 0;
    while k < m
        invariant
            n == s@.len(),
            m == w@.len(),
            i + m <= n,
            k <= m,
            forall|t: int| 0 <= t < k ==> letter_eq(#[trigger] s@[i + t], w@[t]),
        decreases m - k,
    {
        let a = s.get_char(i + k) as u32;
        let b = w.get_char(k) as u32;
        if !(a == b || a + 32 == b) {
            assert(!letter_eq(s@[i + k as int], w@[k as int]));
            return false;
        }
        k = k + 1;
    }
    let e = i + m;
    let mut j: usize = e;
    while j < n && is_html_space(s.get_char(j))
        invariant
            n == s@.len(),
            e <= j <= n,
            forall|t: int| e <= t < j ==> html_space(#[trigger] s@[t]),
        decreases n - j,
    {
        j = j + 1;
    }
    if j < n && s.get_char(j) == '=' {
        return true;
    }
    proof {
        if exists|j2: int|
            e <= j2 < n && s@[j2] == '=' && forall|t: int| e <= t < j2 ==> html_space(#[trigger] s@[t]) {
            let j2 = choose|j2: int|
                e <= j2 < n && s@[j2] == '=' && forall|t: int| e <= t < j2 ==> html_space(#[trigger] s@[t]);
            if j2 < j {
                assert(html_space(s@[j2]));
            } else if j2 > j {
                assert(html_space(s@[j as int]));
            }
        }
    }
    false
}

/// Whether markup is safe to convert.
pub fn is_safe_markup(html: &str) -> (r: bool)
    ensures
        r == safe_markup(html@),
{
    let n = html.unicode_len();
    let mut i: usize = 0;
    while i < n
        invariant
            n == html@.len(),
            i <= n,
            forall|t: int| 0 <= t < i ==> !numeric_attr_at(html@, t),
        decreases n - i,
    {
        if assigned_at_exec(html, n, "start", i) || assigned_at_exec(html, n, "colspan", i)
            || assigned_at_exec(html, n, "rowspan", i) {
            assert(numeric_attr_at(html@, i as int));
            return false;
        }
        i = i + 1;
    }
    proof {
        assert forall|t: int| !numeric_attr_at(html@, t) by {
            if t >= n as int || t < 0 {
                reveal_strlit("start");
                reveal_strlit("colspan");
                reveal_strlit("rowspan");
            }
        }
    }
    true
}

/// Relies on `html2text::from_read` to turn markup into wrapped plain text.
/// Markup that sets a numeric attribute is left out: html2text adds to an
/// ordered list's `start` and sums `colspan`s without overflow checks.
#[verifier::external_body]
fn html_to_text(html: &str) -> (r: Option<String>)
    requires
        safe_markup(html@),
    ensures
        opt_view(r) == plain_text(html@),
{
    html2text::from_read(html.as_bytes(), 80).ok()
}

/// Relies on `chrono::NaiveDateTime::parse_from_str`, then `and_utc` and
/// `timestamp`, for the epoch seconds of a date-time text.
#[verifier::external_body]
pub(crate) fn parse_epoch(text: &str, format: &str) -> (r: Option<i64>)
    ensures
        r == parsed_epoch(text@, format@),
{
    match chrono::NaiveDateTime::parse_from_str(text, format) {
        Ok(dt) => Some(dt.and_utc().timestamp()),
        Err(_) => None,
    }
}

pub open spec fn space_format() -> Seq<char> {
    "%Y-%m-%d %H:%M:%S"@
}

pub open spec fn t_format() -> Seq<char> {
    "%Y-%m-%dT%H:%M:%S"@
}

/// The cursor time of a record: its update time read in the space-separated
/// form, else in the `T`-separated form.
pub open spec fn cursor_epoch_of(updated_at: Seq<char>) -> Option<i64> {
    match parsed_epoch(updated_at, space_format()) {
        Some(e) => Some(e),
        None => parsed_epoch(updated_at, t_format()),
    }
}

/// Epoch seconds of an update time, trying both accepted forms.
pub fn cursor_epoch(updated_at: &str) -> (r: Option<i64>)
    ensures
        r == cursor_epoch_of(updated_at@),
{
    match parse_epoch(updated_at, "%Y-%m-%d %H:%M:%S") {
        Some(e) => Some(e),
        None => parse_epoch(updated_at, "%Y-%m-%dT%H:%M:%S"),
    }
}

/// Content as stored: the plain text of safe markup, or the markup itself
/// where it sets a numeric attribute or cannot be converted.
pub open spec fn stored_content(html: Seq<char>) -> Seq<char> {
    if !safe_markup(html) {
        html
    } else {
        match plain_text(html) {
            Some(t) => t,
            None => html,
        }
    }
}

pub open spec fn link_prefix() -> Seq<char> {
    "https://v.flomoapp.com/mine/?memo_id="@
}

/// The deep link of a memo.
pub open spec fn memo_link(slug: Seq<char>) -> Seq<char> {
    link_prefix() + slug
}

/// The memo a remote record becomes.
pub open spec fn converted(a: ApiMemo) -> MemoView {
    MemoView {
        slug: a.slug@,
        content: stored_content(a.content@),
        created_at: a.created_at@,
        updated_at: a.updated_at@,
        tags: strings_view(a.tags@),
        url: Some(memo_link(a.slug@)),
    }
}

pub open spec fn converted_page(page: Seq<ApiMemo>) -> Seq<MemoView> {
    page.map_values(|a: ApiMemo| converted(a))
}

/// Turns a remote record into a memo: plain-text content and a deep link.
pub fn convert_memo(a: &ApiMemo) -> (m: Memo)
    ensures
        m@ == converted(*a),
{
    let content = if !is_safe_markup(a.content.as_str()) {
        a.content.clone()
    } else {
        match html_to_text(a.content.as_str()) {
            Some(t) => t,
            None => a.content.clone(),
        }
    };
    let url = String::from_str("https://v.flomoapp.com/mine/?memo_id=").concat(a.slug.as_str());
    Memo {
        slug: a.slug.clone(),
        content,
        created_at: a.created_at.clone(),
        updated_at: a.updated_at.clone(),
        tags: copy_strings(&a.tags),
        url: Some(url),
    }
}

/// The epoch seconds that `chrono::DateTime::parse_from_rfc3339` reads from
/// `text` (`None` where it does not parse).
pub uninterp spec fn rfc3339_epoch(text: Seq<char>) -> Option<i64>;

/// Relies on `chrono::DateTime::parse_from_rfc3339` and `timestamp` for the
/// epoch seconds of an RFC 3339 time.
#[verifier::external_body]
pub(crate) fn parse_rfc3339_epoch(text: &str) -> (r: Option<i64>)
    ensures
        r == rfc3339_epoch(text@),
{
    match chrono::DateTime::parse_from_rfc3339(text) {
        Ok(dt) => Some(dt.timestamp()),
        Err(_) => None,
    }
}

/// One fetched page as handed to a caller: the converted memos, whether the
/// page was full, and, if so, the cursor after its last record.
pub fn paged_response(page: &Vec<ApiMemo>) -> (r: PagedResponse)
    ensures
        memo_views(r.memos@) == converted_page(page@),
        r.has_more == (page@.len() >= PAGE_LIMIT),
        opt_view(r.next_slug) == if r.has_more {
            Some(page@.last().slug@)
        } else {
            None::<Seq<char>>
        },
        r.next_updated_at == if r.has_more {
            cursor_epoch_of(page@.last().updated_at@)
        } else {
            None
        },
{
    let n = page.len();
    let has_more = n >= PAGE_LIMIT;
    let (next_slug, next_updated_at) = if has_more {
        let last = &page[n - 1];
        (Some(last.slug.clone()), cursor_epoch(last.updated_at.as_str()))
    } else {
        (None, None)
    };
    let mut memos: Vec<Memo> = Vec::new();
    let mut k: usize = 0;
    while k < n
        invariant
            n == page@.len(),
            k <= n,
            memos@.len() == k,
            forall|a: int| 0 <= a < k ==> #[trigger] memos@[a]@ == converted(page@[a]),
        decreases n - k,
    {
        memos.push(convert_memo(&page[k]));
        k = k + 1;
    }
    assert(memo_views(memos@) =~= converted_page(page@));
    PagedResponse { memos, has_more, next_slug, next_updated_at }
}

/// The slugs of a page.
pub open spec fn page_slugs(page: Seq<ApiMemo>) -> Set<Seq<char>> {
    Set::new(|s: Seq<char>| exists|i: int| 0 <= i < page.len() && page[i].slug@ == s)
}

proof fn lemma_page_slugs(page: Seq<ApiMemo>)
    ensures
        converted_page(page).map_values(|m: MemoView| m.slug).to_set() == page_slugs(page),
{
    let sl = converted_page(page).map_values(|m: MemoView| m.slug);
    assert forall|s: Seq<char>| sl.to_set().contains(s) == page_slugs(page).contains(s) by {
        if sl.contains(s) {
            let k = choose|k: int| 0 <= k < sl.len() && sl[k] == s;
            assert(page[k].slug@ == s);
        }
        if page_slugs(page).contains(s) {
            let k = choose|k: int| 0 <= k < page.len() && page[k].slug@ == s;
            assert(sl[k] == s);
        }
    }
    assert(sl.to_set() =~= page_slugs(page));
}

/// The page holds a slug not in `seen`.
pub open spec fn has_new(seen: Set<Seq<char>>, page: Seq<ApiMemo>) -> bool {
    exists|i: int| 0 <= i < page.len() && !seen.contains(#[trigger] page[i].slug@)
}

/// An unproductive page: empty, or all duplicates while the cursor has no time.
pub open spec fn unproductive(seen: Set<Seq<char>>, page: Seq<ApiMemo>, timed_cursor: bool) -> bool {
    page.len() == 0 || (!has_new(seen, page) && !timed_cursor)
}

/// A page ends the run when it is the second unproductive one in a row.
pub open spec fn ends_run(count: int, unproductive_page: bool) -> bool {
    unproductive_page && count >= 1
}

/// The count of consecutive unproductive pages after one more page.
pub open spec fn count_after(count: int, unproductive_page: bool, fresh: bool) -> int {
    if unproductive_page { count + 1 } else if fresh { 0 } else { count }
}

/// A count as a `usize`, saturating.
pub open spec fn saturated(n: int) -> int {
    if n > usize::MAX { usize::MAX as int } else { n }
}

/// The progress message after a batch.
pub open spec fn synced_message(count: int) -> Seq<char> {
    "Synced "@ + decimal_text(count) + " unique memos..."@
}

/// The progress message at completion.
pub open spec fn completed_message(count: int) -> Seq<char> {
    "Successfully synced "@ + decimal_text(count) + " unique memos"@
}

/// What the caller does next.
pub enum SyncStep {
    /// Fetch the page after this cursor.
    Fetch { latest_slug: Option<String>, latest_updated_at: Option<i64> },
    /// The run was cancelled; the status says so.
    Cancelled,
    /// The page budget is spent: call `finish`.
    Finished,
}

/// What came of one fetched page.
pub enum PageOutcome {
    /// The page was persisted; `more` tells whether to go on.
    Progress { progress: SyncProgress, more: bool },
    /// The second unproductive page in a row: call `finish`.
    Exhausted,
    /// The fetch or the store failed; the status says so.
    Failed { message: String },
}

/// The transient state of one run: the slugs seen, the cursor, the count of
/// consecutive unproductive pages and of pages asked for.
pub struct SyncRun {
    seen: Vec<String>,
    latest_slug: Option<String>,
    latest_updated_at: Option<i64>,
    unproductive_pages: u64,
    iterations: u64,
    start_slugs: Ghost<Set<Seq<char>>>,
}

fn to_usize(n: i64) -> (r: usize)
    requires
        n >= 0,
    ensures
        r as int == saturated(n as int),
{
    if n as u64 > usize::MAX as u64 {
        usize::MAX
    } else {
        n as usize
    }
}

fn u64_to_usize(n: u64) -> (r: usize)
    ensures
        r as int == saturated(n as int),
{
    if n > usize::MAX as u64 {
        usize::MAX
    } else {
        n as usize
    }
}

impl SyncRun {
    pub closed spec fn seen_set(&self) -> Set<Seq<char>> {
        Set::new(|s: Seq<char>| exists|i: int| 0 <= i < self.seen@.len() && self.seen@[i]@ == s)
    }

    /// The slugs the store held when the run started.
    pub closed spec fn initial_slugs(&self) -> Set<Seq<char>> {
        self.start_slugs@
    }

    /// The store holds exactly the slugs it held at the start of the run
    /// and those the run has seen.
    pub closed spec fn accounts_for(&self, db: Database) -> bool {
        slug_set(db.rows_view()) == self.start_slugs@ + self.seen_set()
    }

    pub closed spec fn cursor_slug(&self) -> Option<Seq<char>> {
        opt_view(self.latest_slug)
    }

    pub closed spec fn cursor_time(&self) -> Option<i64> {
        self.latest_updated_at
    }

    /// Consecutive unproductive pages so far.
    pub closed spec fn unproductive_count(&self) -> int {
        self.unproductive_pages as int
    }

    /// Pages that may still be asked for.
    pub closed spec fn fetches_left(&self) -> int {
        MAX_ITERATIONS - self.iterations
    }

    pub closed spec fn wf(&self) -> bool {
        self.unproductive_pages <= 1 && self.iterations <= MAX_ITERATIONS
    }

    /// Starts a run: the status becomes `syncing` with no error, and the run
    /// has seen nothing and has no cursor.
    pub fn start(db: &mut Database) -> (r: SyncRun)
        requires
            old(db).wf(),
        ensures
            final(db).wf(),
            final(db).rows_view() == old(db).rows_view(),
            final(db).next_row_id() == old(db).next_row_id(),
            status_updated(old(db).status_view(), final(db).status_view(), "syncing"@, None, None),
            r.wf(),
            r.seen_set() == Set::<Seq<char>>::empty(),
            r.cursor_slug() is None,
            r.cursor_time() is None,
            r.unproductive_count() == 0,
            r.fetches_left() == MAX_ITERATIONS,
            r.initial_slugs() == slug_set(old(db).rows_view()),
            r.accounts_for(*final(db)),
    {
        db.update_sync_status("syncing", None, None);
        let r = SyncRun {
            seen: Vec::new(),
            latest_slug: None,
            latest_updated_at: None,
            unproductive_pages: 0,
            iterations: 0,
            start_slugs: Ghost(slug_set(db.rows_view())),
        };
        assert(r.seen_set() =~= Set::<Seq<char>>::empty());
        assert(slug_set(db.rows_view()) + r.seen_set() =~= slug_set(db.rows_view()));
        r
    }

    /// Decides the next step: `Finished` once the page budget is spent;
    /// else one page of the budget is used and, if `cancelled`, the status
    /// becomes `cancelled` with the stored count, otherwise the caller is
    /// told to fetch after the current cursor.
    pub fn next_step(&mut self, db: &mut Database, cancelled: bool) -> (r: SyncStep)
        requires
            old(self).wf(),
            old(db).wf(),
        ensures
            final(self).wf(),
            final(db).wf(),
            final(db).rows_view() == old(db).rows_view(),
            final(db).next_row_id() == old(db).next_row_id(),
            final(self).seen_set() == old(self).seen_set(),
            final(self).cursor_slug() == old(self).cursor_slug(),
            final(self).cursor_time() == old(self).cursor_time(),
            final(self).unproductive_count() == old(self).unproductive_count(),
            final(self).initial_slugs() == old(self).initial_slugs(),
            old(self).accounts_for(*old(db)) ==> final(self).accounts_for(*final(db)),
            old(self).fetches_left() == 0 ==> r is Finished && final(db).status_view() == old(
                db,
            ).status_view() && final(self).fetches_left() == 0,
            old(self).fetches_left() > 0 ==> final(self).fetches_left() == old(self).fetches_left() - 1,
            old(self).fetches_left() > 0 && cancelled ==> r is Cancelled && status_updated(
                old(db).status_view(),
                final(db).status_view(),
                "cancelled"@,
                Some(old(db).rows_view().len() as i64),
                None,
            ),
            old(self).fetches_left() > 0 && !cancelled ==> final(db).status_view() == old(
                db,
            ).status_view() && match r {
                SyncStep::Fetch { latest_slug, latest_updated_at } => opt_view(latest_slug)
                    == old(self).cursor_slug() && latest_updated_at == old(self).cursor_time(),
                _ => false,
            },
    {
        if self.iterations >= MAX_ITERATIONS {
            return SyncStep::Finished;
        }
        self.iterations = self.iterations + 1;
        if cancelled {
            let count = db.get_memo_count();
            db.update_sync_status("cancelled", Some(count), None);
            return SyncStep::Cancelled;
        }
        SyncStep::Fetch {
            latest_slug: copy_opt_string(&self.latest_slug),
            latest_updated_at: self.latest_updated_at,
        }
    }

    fn page_has_new(&self, page: &Vec<ApiMemo>) -> (r: bool)
        ensures
            r == has_new(self.seen_set(), page@),
    {
        let mut i: usize = 0;
        while i < page.len()
            invariant
                i <= page@.len(),
                forall|k: int| 0 <= k < i ==> self.seen_set().contains(#[trigger] page@[k].slug@),
            decreases page@.len() - i,
        {
            let mut j: usize = 0;
            let mut found = false;
            while j < self.seen.len()
                invariant_except_break
                    !found,
                invariant
                    j <= self.seen@.len(),
                    i < page@.len(),
                    forall|k: int| 0 <= k < j ==> self.seen@[k]@ != page@[i as int].slug@,
                ensures
                    found ==> self.seen_set().contains(page@[i as int].slug@),
                    !found ==> forall|k: int| 0 <= k < self.seen@.len() ==> self.seen@[k]@ != page@[i as int].slug@,
                decreases self.seen@.len() - j,
            {
                if str_eq(self.seen[j].as_str(), page[i].slug.as_str()) {
                    found = true;
                    assert(self.seen@[j as int]@ == page@[i as int].slug@);
                    break;
                }
                j = j + 1;
            }
            if !found {
                assert(!self.seen_set().contains(page@[i as int].slug@));
                return true;
            }
            i = i + 1;
        }
        false
    }

    /// Handles one fetch result. An error marks the status `failed`. A page
    /// that is the second unproductive one in a row ends the run unwritten.
    /// Otherwise its slugs join the seen set, a full page moves the cursor
    /// to its last record, and the page is converted and upserted as one
    /// unit; then the status total and the progress report give the stored
    /// count, and `more` tells whether to fetch again: the page was full, or
    /// it was a first unproductive page.
    pub fn on_page(&mut self, db: &mut Database, fetched: Result<Vec<ApiMemo>, String>) -> (r:
        PageOutcome)
        requires
            old(self).wf(),
            old(db).wf(),
        ensures
            final(self).wf(),
            final(db).wf(),
            final(self).fetches_left() == old(self).fetches_left(),
            final(self).initial_slugs() == old(self).initial_slugs(),
            old(self).accounts_for(*old(db)) && !(r is Failed) ==> final(self).accounts_for(*final(db)),
            match fetched {
                Err(e) => r matches PageOutcome::Failed { message } && message@ == e@
                    && final(db).rows_view() == old(db).rows_view() && status_updated(
                    old(db).status_view(),
                    final(db).status_view(),
                    "failed"@,
                    None,
                    Some(e@),
                ),
                Ok(page) => {
                    let unprod = unproductive(old(self).seen_set(), page@, old(self).cursor_time() is Some);
                    let full = page@.len() >= PAGE_LIMIT;
                    if ends_run(old(self).unproductive_count(), unprod) {
                        &&& r is Exhausted
                        &&& final(db).rows_view() == old(db).rows_view()
                        &&& final(db).status_view() == old(db).status_view()
                    } else {
                        &&& old(db).next_row_id() + page@.len() <= i64::MAX ==> r is Progress
                        &&& final(self).unproductive_count() == count_after(
                            old(self).unproductive_count(),
                            unprod,
                            has_new(old(self).seen_set(), page@),
                        )
                        &&& final(self).seen_set() == old(self).seen_set() + page_slugs(page@)
                        &&& final(self).cursor_slug() == if full {
                            Some(page@.last().slug@)
                        } else {
                            old(self).cursor_slug()
                        }
                        &&& final(self).cursor_time() == if full {
                            cursor_epoch_of(page@.last().updated_at@)
                        } else {
                            old(self).cursor_time()
                        }
                        &&& match r {
                            PageOutcome::Failed { message } => final(db).rows_view() == old(
                                db,
                            ).rows_view() && status_updated(
                                old(db).status_view(),
                                final(db).status_view(),
                                "failed"@,
                                None,
                                Some(message@),
                            ),
                            PageOutcome::Progress { progress, more } => {
                                let count = final(db).rows_view().len() as int;
                                &&& (final(db).rows_view(), final(db).next_row_id()) == upsert_all(
                                    old(db).rows_view(),
                                    old(db).next_row_id(),
                                    converted_page(page@),
                                    tags_json_all(converted_page(page@)),
                                )
                                &&& status_updated(
                                    old(db).status_view(),
                                    final(db).status_view(),
                                    "syncing"@,
                                    Some(count as i64),
                                    None,
                                )
                                &&& slug_set(final(db).rows_view()) == slug_set(old(db).rows_view())
                                    + page_slugs(page@)
                                &&& count == old(db).rows_view().len() + page@.len() - duplicates(
                                    slug_set(old(db).rows_view()),
                                    converted_page(page@),
                                )
                                &&& more == (full || unprod)
                                &&& progress.current as int == saturated(count)
                                &&& progress.total as int == saturated(
                                    count + if full || unprod { page@.len() as int } else { 0 },
                                )
                                &&& progress.status@ == "syncing"@
                                &&& progress.message@ == synced_message(count)
                            },
                            PageOutcome::Exhausted => false,
                        }
                    }
                },
            },
    {
        let page = match fetched {
            Err(e) => {
                db.update_sync_status("failed", None, Some(e.as_str()));
                return PageOutcome::Failed { message: e };
            },
            Ok(p) => p,
        };
        let n = page.len();
        let fresh = self.page_has_new(&page);
        let unprod = n == 0 || (!fresh && self.latest_updated_at.is_none());
        if unprod && self.unproductive_pages >= 1 {
            return PageOutcome::Exhausted;
        }
        if unprod {
            self.unproductive_pages = self.unproductive_pages + 1;
        } else if fresh {
            self.unproductive_pages = 0;
        }
        let ghost seen0 = self.seen_set();
        let ghost u1 = self.unproductive_pages;
        let mut i: usize = 0;
        while i < n
            invariant
                n == page@.len(),
                i <= n,
                self.unproductive_pages == u1,
                u1 <= 1,
                self.iterations == old(self).iterations,
                self.iterations <= MAX_ITERATIONS,
                self.start_slugs == old(self).start_slugs,
                self.latest_slug == old(self).latest_slug,
                self.latest_updated_at == old(self).latest_updated_at,
                self.seen_set() == seen0 + Set::new(
                    |s: Seq<char>| exists|k: int| 0 <= k < i && page@[k].slug@ == s,
                ),
            decreases n - i,
        {
            let ghost before = self.seen@;
            let ghost old_set = self.seen_set();
            let ghost set_i = Set::new(|s: Seq<char>| exists|k: int| 0 <= k < i && page@[k].slug@ == s);
            let ghost set_i1 = Set::new(|s: Seq<char>| exists|k: int| 0 <= k < i + 1 && page@[k].slug@ == s);
            self.seen.push(page[i].slug.clone());
            proof {
                assert(self.seen@ =~= before.push(page@[i as int].slug));
                assert forall|s: Seq<char>| #[trigger] self.seen_set().contains(s) implies (seen0 + set_i1).contains(s) by {
                    let k = choose|k: int| 0 <= k < self.seen@.len() && self.seen@[k]@ == s;
                    if k < before.len() {
                        assert(before[k]@ == s);
                        assert(old_set.contains(s));
                        if set_i.contains(s) {
                            let k2 = choose|k2: int| 0 <= k2 < i && page@[k2].slug@ == s;
                            assert(set_i1.contains(s));
                        }
                    } else {
                        assert(page@[i as int].slug@ == s);
                        assert(set_i1.contains(s));
                    }
                }
                assert forall|s: Seq<char>| (seen0 + set_i1).contains(s) implies #[trigger] self.seen_set().contains(s) by {
                    if seen0.contains(s) || set_i.contains(s) {
                        assert(old_set.contains(s));
                        let j = choose|j: int| 0 <= j < before.len() && before[j]@ == s;
                        assert(self.seen@[j]@ == s);
                    } else {
                        let k = choose|k: int| 0 <= k < i + 1 && page@[k].slug@ == s;
                        if k < i {
                            assert(set_i.contains(s));
                        }
                        assert(self.seen@[before.len() as int]@ == s);
                    }
                }
                assert(self.seen_set() =~= seen0 + set_i1);
            }
            i = i + 1;
        }
        assert(self.seen_set() =~= seen0 + page_slugs(page@));
        let full = n >= PAGE_LIMIT;
        if full {
            let last = &page[n - 1];
            self.latest_slug = Some(last.slug.clone());
            self.latest_updated_at = cursor_epoch(last.updated_at.as_str());
        }
        let mut batch: Vec<Memo> = Vec::new();
        let mut k: usize = 0;
        while k < n
            invariant
                n == page@.len(),
                k <= n,
                batch@.len() == k,
                forall|a: int| 0 <= a < k ==> #[trigger] batch@[a]@ == converted(page@[a]),
            decreases n - k,
        {
            batch.push(convert_memo(&page[k]));
            k = k + 1;
        }
        assert(memo_views(batch@) =~= converted_page(page@));
        match db.bulk_upsert_memos(batch.as_slice()) {
            Err(e) => {
                db.update_sync_status("failed", None, Some(e.as_str()));
                PageOutcome::Failed { message: e }
            },
            Ok(()) => {
                proof {
                    old(db).lemma_valid_rows();
                    lemma_count_after_upserts(
                        old(db).rows_view(),
                        old(db).next_row_id(),
                        converted_page(page@),
                        tags_json_all(converted_page(page@)),
                    );
                    lemma_page_slugs(page@);
                }
                let count = db.get_memo_count();
                db.update_sync_status("syncing", Some(count), None);
                proof {
                    let st = self.start_slugs@;
                    assert(st + seen0 + page_slugs(page@) =~= st + (seen0 + page_slugs(page@)));
                }
                let more = full || unprod;
                let total: u64 = if more {
                    (count as u64).saturating_add(n as u64)
                } else {
                    count as u64
                };
                let message = String::from_str("Synced ").concat(decimal_string(count).as_str()).concat(
                    " unique memos...",
                );
                let progress = SyncProgress {
                    total: u64_to_usize(total),
                    current: to_usize(count),
                    status: String::from_str("syncing"),
                    message,
                };
                PageOutcome::Progress { progress, more }
            },
        }
    }

    /// Ends the run normally: the status becomes `completed` with the
    /// stored count, and the final report has `current == total`.
    pub fn finish(&self, db: &mut Database) -> (r: SyncProgress)
        requires
            old(db).wf(),
        ensures
            final(db).wf(),
            final(db).rows_view() == old(db).rows_view(),
            self.accounts_for(*old(db)) ==> self.accounts_for(*final(db)),
            final(db).next_row_id() == old(db).next_row_id(),
            status_updated(
                old(db).status_view(),
                final(db).status_view(),
                "completed"@,
                Some(old(db).rows_view().len() as i64),
                None,
            ),
            r.current as int == saturated(old(db).rows_view().len() as int),
            r.total == r.current,
            r.status@ == "completed"@,
            r.message@ == completed_message(old(db).rows_view().len() as int),
    {
        let count = db.get_memo_count();
        db.update_sync_status("completed", Some(count), None);
        let message = String::from_str("Successfully synced ").concat(decimal_string(count).as_str()).concat(
            " unique memos",
        );
        SyncProgress {
            total: to_usize(count),
            current: to_usize(count),
            status: String::from_str("completed"),
            message,
        }
    }
}

} // verus!

verus! {

/// Starting from a count of zero (a fresh run, or just after a page with a
/// new record): an unproductive page does not end the run; a following page
/// with a new record does not end it either and resets the count; a second
/// unproductive page in a row instead ends it.
pub proof fn lemma_unproductive_page_tolerance(
    seen: Set<Seq<char>>,
    first: Seq<ApiMemo>,
    second: Seq<ApiMemo>,
    timed1: bool,
    timed2: bool,
)
    requires
        unproductive(seen, first, timed1),
    ensures
        !ends_run(0, unproductive(seen, first, timed1)),
        has_new(seen + page_slugs(first), second) ==> {
            let c1 = count_after(0, true, has_new(seen, first));
            &&& !ends_run(c1, unproductive(seen + page_slugs(first), second, timed2))
            &&& count_after(c1, unproductive(seen + page_slugs(first), second, timed2), true) == 0
        },
        unproductive(seen + page_slugs(first), second, timed2) ==> ends_run(
            count_after(0, true, has_new(seen, first)),
            true,
        ),
{
}

/// Whatever pages a run has persisted, the store holds exactly the slugs it
/// held at the start and those the run has fetched, one row each: no
/// duplicate row and no dropped record.
pub proof fn lemma_run_converges(run: &SyncRun, db: &Database)
    requires
        run.accounts_for(*db),
        db.wf(),
    ensures
        slug_set(db.rows_view()) == run.initial_slugs() + run.seen_set(),
        db.rows_view().len() == (run.initial_slugs() + run.seen_set()).len(),
{
    db.lemma_valid_rows();
    lemma_row_count(db.rows_view());
}

} // verus!
