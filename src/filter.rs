//! Case-insensitive filtering of memos fetched from the remote source, and
//! paging over the matches.
use vstd::prelude::*;
use crate::memo::{Memo, MemoView, PagedResponse};
use crate::store::memo_views;
use crate::text::{has_substring, str_contains};

verus! {

/// What `str::to_lowercase` makes of a text.
pub uninterp spec fn lower_of(s: Seq<char>) -> Seq<char>;

/// Relies on `str::to_lowercase`: the result depends on the characters alone.
#[verifier::external_body]
fn lowercase(s: &str) -> (r: String)
    ensures
        r@ == lower_of(s@),
{
    s.to_lowercase()
}

/// A memo matches when its lower-cased content, or one of its lower-cased
/// tags, contains the lower-cased query.
pub open spec fn memo_matches(m: MemoView, q: Seq<char>) -> bool {
    has_substring(lower_of(m.content), lower_of(q)) || exists|i: int|
        0 <= i < m.tags.len() && has_substring(lower_of(#[trigger] m.tags[i]), lower_of(q))
}

/// The matching memos, in their order.
pub open spec fn matching(ms: Seq<MemoView>, q: Seq<char>) -> Seq<MemoView>
    decreases ms.len(),
{
    if ms.len() == 0 {
        Seq::empty()
    } else {
        let rest = matching(ms.drop_last(), q);
        if memo_matches(ms.last(), q) {
            rest.push(ms.last())
        } else {
            rest
        }
    }
}

/// Whether already lower-cased content or tags contain an already
/// lower-cased query.
pub fn matches_lowered(content: &str, tags: &Vec<String>, query: &str) -> (r: bool)
    ensures
        r == (has_substring(content@, query@) || exists|i: int|
            0 <= i < tags@.len() && has_substring(#[trigger] tags@[i]@, query@)),
{
    if str_contains(content, query) {
        return true;
    }
    let mut i: usize = 0;
    while i < tags.len()
        invariant
            i <= tags@.len(),
            forall|k: int| 0 <= k < i ==> !has_substring(#[trigger] tags@[k]@, query@),
        decreases tags@.len() - i,
    {
        if str_contains(tags[i].as_str(), query) {
            return true;
        }
        i = i + 1;
    }
    false
}

/// Whether a memo matches `query`, ignoring case.
pub fn memo_matches_query(m: &Memo, query: &str) -> (r: bool)
    ensures
        r == memo_matches(m@, query@),
{
    let content = lowercase(m.content.as_str());
    let q = lowercase(query);
    let mut tags: Vec<String> = Vec::new();
    let mut i: usize = 0;
    while i < m.tags.len()
        invariant
            i <= m.tags@.len(),
            tags@.len() == i,
            forall|k: int| 0 <= k < i ==> #[trigger] tags@[k]@ == lower_of(m.tags@[k]@),
        decreases m.tags@.len() - i,
    {
        tags.push(lowercase(m.tags[i].as_str()));
        i = i + 1;
    }
    let r = matches_lowered(content.as_str(), &tags, q.as_str());
    proof {
        if r && !has_substring(content@, q@) {
            let k = choose|k: int| 0 <= k < tags@.len() && has_substring(#[trigger] tags@[k]@, q@);
            assert(has_substring(lower_of(m@.tags[k]), lower_of(query@)));
        }
        if memo_matches(m@, query@) && !has_substring(content@, q@) {
            let k = choose|k: int|
                0 <= k < m@.tags.len() && has_substring(lower_of(#[trigger] m@.tags[k]), lower_of(query@));
            assert(has_substring(tags@[k]@, q@));
        }
    }
    r
}

/// The memos that match `query`, ignoring case, in their order.
pub fn filter_memos(memos: Vec<Memo>, query: &str) -> (r: Vec<Memo>)
    ensures
        memo_views(r@) == matching(memo_views(memos@), query@),
{
    let ghost ms = memo_views(memos@);
    let mut out: Vec<Memo> = Vec::new();
    let mut i: usize = 0;
    while i < memos.len()
        invariant
            i <= memos@.len(),
            ms == memo_views(memos@),
            memo_views(out@) == matching(ms.subrange(0, i as int), query@),
        decreases memos@.len() - i,
    {
        proof {
            assert(ms.subrange(0, i + 1).drop_last() =~= ms.subrange(0, i as int));
        }
        if memo_matches_query(&memos[i], query) {
            let ghost before = out@;
            out.push(memos[i].copied());
            assert(memo_views(out@) =~= memo_views(before).push(ms[i as int]));
        }
        i = i + 1;
    }
    assert(ms.subrange(0, memos@.len() as int) =~= ms);
    out
}

/// The page `[offset, offset + limit)` of the matches of `query`, with
/// `has_more` telling whether more matches follow; no cursor.
pub fn search_page(memos: Vec<Memo>, query: &str, offset: usize, limit: usize) -> (r: PagedResponse)
    ensures
        ({
            let m = matching(memo_views(memos@), query@);
            let start = if offset < m.len() { offset as int } else { m.len() as int };
            let end = if offset + limit < m.len() { offset + limit } else { m.len() as int };
            &&& memo_views(r.memos@) == m.subrange(start, end)
            &&& r.has_more == (m.len() > offset + limit)
            &&& r.next_slug is None
            &&& r.next_updated_at is None
        }),
{
    let found = filter_memos(memos, query);
    let ghost m = memo_views(found@);
    let n = found.len();
    let start = if offset < n { offset } else { n };
    let end = if limit < n - start { start + limit } else { n };
    let mut page: Vec<Memo> = Vec::new();
    let mut k: usize = start;
    while k < end
        invariant
            start <= k <= end,
            end <= n,
            n == found@.len(),
            m == memo_views(found@),
            memo_views(page@) == m.subrange(start as int, k as int),
        decreases end - k,
    {
        let ghost before = page@;
        page.push(found[k].copied());
        assert(memo_views(page@) =~= memo_views(before).push(m[k as int]));
        assert(memo_views(page@) =~= m.subrange(start as int, k + 1));
        k = k + 1;
    }
    let has_more = n > start && n - start > limit;
    PagedResponse { memos: page, has_more, next_slug: None, next_updated_at: None }
}

} // verus!
