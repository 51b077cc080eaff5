//! Export of memos as Markdown or as a plain-text table, and the date
//! formatting they use.
use vstd::prelude::*;
use std::fmt::Write;
use crate::engine::{parse_epoch, parse_rfc3339_epoch, parsed_epoch, rfc3339_epoch, space_format};
use crate::memo::{Memo, MemoView};
use crate::store::memo_views;
use crate::text::{decimal_text, digits_string, has_prefix, has_substring, occurs_at, str_contains, str_eq};

verus! {

/// What `chrono`'s `format` with `pattern` writes for the UTC time at
/// `epoch` seconds (`None` where the time is out of range or the pattern is
/// not valid).
pub uninterp spec fn formatted_utc(epoch: i64, pattern: Seq<char>) -> Option<Seq<char>>;


/// Relies on `chrono::DateTime::from_timestamp` and `format` to write the
/// UTC time at `epoch` in `pattern`; a failed write gives `None`.
#[verifier::external_body]
fn format_utc(epoch: i64, pattern: &str) -> (r: Option<String>)
    ensures
        match r {
            Some(t) => formatted_utc(epoch, pattern@) == Some(t@),
            None => formatted_utc(epoch, pattern@) is None,
        },
{
    let dt = chrono::DateTime::from_timestamp(epoch, 0)?;
    let mut out = String::new();
    match write!(out, "{}", dt.format(pattern)) {
        Ok(()) => Some(out),
        Err(_) => None,
    }
}

/// A character with the Unicode `White_Space` property, as `char::is_whitespace`
/// and `str::trim` use it.
pub open spec fn is_space(c: char) -> bool {
    let v = c as int;
    (0x09 <= v <= 0x0D) || v == 0x20 || v == 0x85 || v == 0xA0 || v == 0x1680 || (0x2000 <= v
        <= 0x200A) || v == 0x2028 || v == 0x2029 || v == 0x202F || v == 0x205F || v == 0x3000
}

pub open spec fn trim_start(s: Seq<char>) -> Seq<char>
    decreases s.len(),
{
    if s.len() > 0 && is_space(s[0]) {
        trim_start(s.drop_first())
    } else {
        s
    }
}

pub open spec fn trim_end(s: Seq<char>) -> Seq<char>
    decreases s.len(),
{
    if s.len() > 0 && is_space(s.last()) {
        trim_end(s.drop_last())
    } else {
        s
    }
}

/// A text without leading and trailing whitespace.
pub open spec fn trimmed(s: Seq<char>) -> Seq<char> {
    trim_end(trim_start(s))
}

proof fn lemma_trim_start(s: Seq<char>, a: int)
    requires
        0 <= a <= s.len(),
        forall|k: int| 0 <= k < a ==> is_space(#[trigger] s[k]),
        a == s.len() || !is_space(s[a]),
    ensures
        trim_start(s) == s.subrange(a, s.len() as int),
    decreases a,
{
    if a == 0 {
        assert(s.subrange(0, s.len() as int) =~= s);
    } else {
        lemma_trim_start(s.drop_first(), a - 1);
        assert(s.drop_first().subrange(a - 1, s.len() - 1) =~= s.subrange(a, s.len() as int));
    }
}

proof fn lemma_trim_end(s: Seq<char>, b: int)
    requires
        0 <= b <= s.len(),
        forall|k: int| b <= k < s.len() ==> is_space(#[trigger] s[k]),
        b == 0 || !is_space(s[b - 1]),
    ensures
        trim_end(s) == s.subrange(0, b),
    decreases s.len() - b,
{
    if b == s.len() {
        assert(s.subrange(0, b) =~= s);
    } else {
        lemma_trim_end(s.drop_last(), b);
        assert(s.drop_last().subrange(0, b) =~= s.subrange(0, b));
    }
}

fn space_char(c: char) -> (r: bool)
    ensures
        r == is_space(c),
{
    let v = c as u32;
    (0x09 <= v && v <= 0x0D) || v == 0x20 || v == 0x85 || v == 0xA0 || v == 0x1680 || (0x2000 <= v
        && v <= 0x200A) || v == 0x2028 || v == 0x2029 || v == 0x202F || v == 0x205F || v == 0x3000
}

/// The text without leading and trailing whitespace.
pub fn trim_text(s: &str) -> (r: String)
    ensures
        r@ == trimmed(s@),
{
    let n = s.unicode_len();
    let mut a: usize = 0;
    while a < n && space_char(s.get_char(a))
        invariant
            n == s@.len(),
            a <= n,
            forall|k: int| 0 <= k < a ==> is_space(#[trigger] s@[k]),
        decreases n - a,
    {
        a = a + 1;
    }
    proof {
        lemma_trim_start(s@, a as int);
    }
    let mut b: usize = n;
    while b > a && space_char(s.get_char(b - 1))
        invariant
            n == s@.len(),
            a <= b <= n,
            forall|k: int| b <= k < n ==> is_space(#[trigger] s@[k]),
        decreases b,
    {
        b = b - 1;
    }
    proof {
        let t = s@.subrange(a as int, n as int);
        assert forall|k: int| (b - a) <= k < t.len() implies is_space(#[trigger] t[k]) by {
            assert(t[k] == s@[a + k]);
        }
        if b > a {
            assert(t[b - a - 1] == s@[b - 1]);
        }
        lemma_trim_end(t, (b - a) as int);
        assert(t.subrange(0, (b - a) as int) =~= s@.subrange(a as int, b as int));
    }
    String::from_str(s.substring_char(a, b))
}

fn usize_string(n: usize) -> (r: String)
    ensures
        r@ == decimal_text(n as int),
{
    digits_string(n as u64)
}

/// Every non-overlapping occurrence of `from`, left to right, replaced by `to`.
pub open spec fn replaced(s: Seq<char>, from: Seq<char>, to: Seq<char>) -> Seq<char>
    decreases s.len(),
{
    if s.len() == 0 {
        s
    } else if from.len() > 0 && has_prefix(s, from) {
        to + replaced(s.subrange(from.len() as int, s.len() as int), from, to)
    } else {
        seq![s[0]] + replaced(s.drop_first(), from, to)
    }
}

/// Replaces every occurrence of a non-empty `from` by `to`.
pub fn replace_all(s: &str, from: &str, to: &str) -> (r: String)
    requires
        from@.len() > 0,
    ensures
        r@ == replaced(s@, from@, to@),
{
    let n = s.unicode_len();
    let m = from.unicode_len();
    let mut acc = String::new();
    let mut i: usize = 0;
    proof {
        assert(s@.subrange(0, n as int) =~= s@);
        assert(acc@ + replaced(s@, from@, to@) =~= replaced(s@, from@, to@));
    }
    while i < n
        invariant
            n == s@.len(),
            m == from@.len(),
            m > 0,
            i <= n,
            acc@ + replaced(s@.subrange(i as int, n as int), from@, to@) == replaced(s@, from@, to@),
        decreases n - i,
    {
        let ghost rest = s@.subrange(i as int, n as int);
        if m <= n - i && occurs_at_str(s, from, n, m, i) {
            proof {
                assert(rest.subrange(0, m as int) =~= s@.subrange(i as int, i + m));
                assert(rest.subrange(m as int, rest.len() as int) =~= s@.subrange(i + m, n as int));
                assert(acc@ + to@ + replaced(s@.subrange(i + m, n as int), from@, to@) =~= acc@ + replaced(
                    rest,
                    from@,
                    to@,
                ));
            }
            acc.append(to);
            i = i + m;
        } else {
            let one = s.substring_char(i, i + 1);
            proof {
                if m <= n - i {
                    assert(rest.subrange(0, m as int) =~= s@.subrange(i as int, i + m));
                }
                assert(rest.drop_first() =~= s@.subrange(i + 1, n as int));
                assert(one@ =~= seq![rest[0]]);
                assert(acc@ + one@ + replaced(s@.subrange(i + 1, n as int), from@, to@) =~= acc@ + replaced(
                    rest,
                    from@,
                    to@,
                ));
            }
            acc.append(one);
            i = i + 1;
        }
    }
    proof {
        assert(s@.subrange(n as int, n as int) =~= Seq::<char>::empty());
        assert(acc@ + Seq::<char>::empty() =~= acc@);
    }
    acc
}

fn occurs_at_str(s: &str, q: &str, n: usize, m: usize, i: usize) -> (r: bool)
    requires
        n == s@.len(),
        m == q@.len(),
        i + m <= n,
    ensures
        r == occurs_at(s@, q@, i as int),
{
    let part = s.substring_char(i, i + m);
    str_eq(part, q)
}

/// The `chrono` pattern of a user date format: `yyyy`, `MM`, `dd`, `HH`,
/// `mm`, `ss` and `MMM` become `%Y`, `%m`, `%d`, `%H`, `%M`, `%S`, `%b`, in
/// that order.
pub open spec fn chrono_pattern(f: Seq<char>) -> Seq<char> {
    replaced(
        replaced(
            replaced(
                replaced(
                    replaced(replaced(replaced(f, "yyyy"@, "%Y"@), "MM"@, "%m"@), "dd"@, "%d"@),
                    "HH"@,
                    "%H"@,
                ),
                "mm"@,
                "%M"@,
            ),
            "ss"@,
            "%S"@,
        ),
        "MMM"@,
        "%b"@,
    )
}

proof fn lemma_literals_nonempty()
    ensures
        "yyyy"@.len() > 0,
        "MM"@.len() > 0,
        "dd"@.len() > 0,
        "HH"@.len() > 0,
        "mm"@.len() > 0,
        "ss"@.len() > 0,
        "MMM"@.len() > 0,
{
    reveal_strlit("yyyy");
    reveal_strlit("MM");
    reveal_strlit("dd");
    reveal_strlit("HH");
    reveal_strlit("mm");
    reveal_strlit("ss");
    reveal_strlit("MMM");
}

/// Turns a user date format into a `chrono` pattern.
pub fn to_chrono_pattern(format: &str) -> (r: String)
    ensures
        r@ == chrono_pattern(format@),
{
    proof {
        lemma_literals_nonempty();
    }
    let a = replace_all(format, "yyyy", "%Y");
    let b = replace_all(a.as_str(), "MM", "%m");
    let c = replace_all(b.as_str(), "dd", "%d");
    let d = replace_all(c.as_str(), "HH", "%H");
    let e = replace_all(d.as_str(), "mm", "%M");
    let f = replace_all(e.as_str(), "ss", "%S");
    replace_all(f.as_str(), "MMM", "%b")
}

/// The epoch seconds of a stored date: RFC 3339, else space-separated.
pub open spec fn date_epoch(date: Seq<char>) -> Option<i64> {
    match rfc3339_epoch(date) {
        Some(e) => Some(e),
        None => parsed_epoch(date, space_format()),
    }
}

/// The pattern used for a user date format: the Chinese date-time form when
/// the format holds `年`, else its `chrono` equivalent.
pub open spec fn pattern_for(format: Seq<char>) -> Seq<char> {
    if has_substring(format, "年"@) {
        "%Y年%m月%d日 %H:%M"@
    } else {
        chrono_pattern(format)
    }
}

/// A stored date written in a user date format; the date as it is where it
/// does not parse or cannot be written.
pub open spec fn formatted_date(date: Seq<char>, format: Seq<char>) -> Seq<char> {
    match date_epoch(date) {
        None => date,
        Some(e) => match formatted_utc(e, pattern_for(format)) {
            Some(t) => t,
            None => date,
        },
    }
}

/// Writes a stored date in a user date format.
pub fn format_date(date_str: &str, format: &str) -> (r: String)
    ensures
        r@ == formatted_date(date_str@, format@),
{
    let epoch = match parse_rfc3339_epoch(date_str) {
        Some(e) => Some(e),
        None => parse_epoch(date_str, "%Y-%m-%d %H:%M:%S"),
    };
    match epoch {
        None => String::from_str(date_str),
        Some(e) => {
            let pattern = if str_contains(format, "年") {
                String::from_str("%Y年%m月%d日 %H:%M")
            } else {
                to_chrono_pattern(format)
            };
            match format_utc(e, pattern.as_str()) {
                Some(t) => t,
                None => String::from_str(date_str),
            }
        },
    }
}

/// Tags joined by `", "`.
pub open spec fn joined_tags(ts: Seq<Seq<char>>) -> Seq<char>
    decreases ts.len(),
{
    if ts.len() == 0 {
        Seq::empty()
    } else if ts.len() == 1 {
        ts[0]
    } else {
        joined_tags(ts.drop_last()) + ", "@ + ts.last()
    }
}

fn join_tags(ts: &Vec<String>) -> (r: String)
    ensures
        r@ == joined_tags(crate::memo::strings_view(ts@)),
{
    let ghost tv = crate::memo::strings_view(ts@);
    let mut acc = String::new();
    let mut i: usize = 0;
    while i < ts.len()
        invariant
            i <= ts@.len(),
            tv == crate::memo::strings_view(ts@),
            acc@ == joined_tags(tv.subrange(0, i as int)),
        decreases ts@.len() - i,
    {
        proof {
            assert(tv.subrange(0, i + 1).drop_last() =~= tv.subrange(0, i as int));
        }
        if i > 0 {
            acc.append(", ");
        }
        acc.append(ts[i].as_str());
        proof {
            if i == 0 {
                assert(acc@ =~= joined_tags(tv.subrange(0, 1)));
            }
        }
        i = i + 1;
    }
    assert(tv.subrange(0, ts@.len() as int) =~= tv);
    acc
}

/// The link and tag lines of a Markdown entry.
pub open spec fn link_line(m: MemoView) -> Seq<char> {
    match m.url {
        Some(u) => "**链接**: "@ + u + "\n"@,
        None => Seq::empty(),
    }
}

pub open spec fn tag_line(m: MemoView) -> Seq<char> {
    if m.tags.len() > 0 {
        "**标签**: "@ + joined_tags(m.tags) + "\n"@
    } else {
        Seq::empty()
    }
}

/// The Markdown entry of the memo numbered `k`.
pub open spec fn markdown_entry(k: int, m: MemoView) -> Seq<char> {
    "## "@ + decimal_text(k) + ". "@ + m.created_at + "\n\n"@ + m.content + "\n\n"@ + link_line(m)
        + tag_line(m) + "\n---\n\n"@
}

pub open spec fn markdown_entries(ms: Seq<MemoView>) -> Seq<char>
    decreases ms.len(),
{
    if ms.len() == 0 {
        Seq::empty()
    } else {
        markdown_entries(ms.drop_last()) + markdown_entry(ms.len() as int, ms.last())
    }
}

fn markdown_tail(m: &Memo) -> (r: String)
    ensures
        r@ == link_line(m@) + tag_line(m@) + "\n---\n\n"@,
{
    let mut out = String::new();
    if let Some(u) = &m.url {
        out.append("**链接**: ");
        out.append(u.as_str());
        out.append("\n");
    }
    if m.tags.len() > 0 {
        out.append("**标签**: ");
        out.append(join_tags(&m.tags).as_str());
        out.append("\n");
    }
    out.append("\n---\n\n");
    assert(out@ =~= link_line(m@) + tag_line(m@) + "\n---\n\n"@);
    out
}

/// All memos as one Markdown document, numbered from 1.
pub fn format_memos_markdown(memos: Vec<Memo>) -> (r: String)
    ensures
        r@ == "# Flomo 备忘录\n\n"@ + markdown_entries(memo_views(memos@)),
{
    let ghost ms = memo_views(memos@);
    let mut body = String::new();
    let mut i: usize = 0;
    while i < memos.len()
        invariant
            i <= memos@.len(),
            ms == memo_views(memos@),
            body@ == markdown_entries(ms.subrange(0, i as int)),
        decreases memos@.len() - i,
    {
        proof {
            assert(ms.subrange(0, i + 1).drop_last() =~= ms.subrange(0, i as int));
        }
        let m = &memos[i];
        let ghost before = body@;
        body.append("## ");
        body.append(usize_string(i + 1).as_str());
        body.append(". ");
        body.append(m.created_at.as_str());
        body.append("\n\n");
        body.append(m.content.as_str());
        body.append("\n\n");
        body.append(markdown_tail(m).as_str());
        assert(body@ =~= before + markdown_entry(i + 1, ms[i as int]));
        i = i + 1;
    }
    assert(ms.subrange(0, memos@.len() as int) =~= ms);
    String::from_str("# Flomo 备忘录\n\n").concat(body.as_str())
}

} // verus!

verus! {

pub open spec fn spaces(n: int) -> Seq<char> {
    Seq::new(if n > 0 { n as nat } else { 0 }, |_i: int| ' ')
}

/// Right-aligned in `w` columns (the default for numbers).
pub open spec fn pad_left(s: Seq<char>, w: int) -> Seq<char> {
    spaces(w - s.len()) + s
}

/// Left-aligned in `w` columns (the default for text).
pub open spec fn pad_right(s: Seq<char>, w: int) -> Seq<char> {
    s + spaces(w - s.len())
}

/// The text before the first space (all of it when there is none).
pub open spec fn before_space(s: Seq<char>) -> Seq<char>
    decreases s.len(),
{
    if s.len() == 0 || s[0] == ' ' {
        Seq::empty()
    } else {
        seq![s[0]] + before_space(s.drop_first())
    }
}

/// Line breaks turned into spaces.
pub open spec fn flattened(s: Seq<char>) -> Seq<char> {
    s.map_values(|c: char| if c == '\n' { ' ' } else { c })
}

pub open spec fn char_utf8_len(c: char) -> int {
    if (c as int) < 0x80 {
        1
    } else if (c as int) < 0x800 {
        2
    } else if (c as int) < 0x10000 {
        3
    } else {
        4
    }
}

/// The length of a text in UTF-8 bytes.
pub open spec fn utf8_len(s: Seq<char>) -> int
    decreases s.len(),
{
    if s.len() == 0 {
        0
    } else {
        utf8_len(s.drop_last()) + char_utf8_len(s.last())
    }
}

/// The first 30 characters of the flattened content, with `...` after
/// them when they take 30 bytes or more.
pub open spec fn preview(content: Seq<char>) -> Seq<char> {
    let f = flattened(content);
    let p = f.subrange(0, if f.len() < 30 { f.len() as int } else { 30 });
    if utf8_len(p) >= 30 {
        p + "..."@
    } else {
        p
    }
}

/// The date column: the text before the first space, or the date in the
/// user format when one is given.
pub open spec fn table_date(created_at: Seq<char>, format: Seq<char>) -> Seq<char> {
    if format.len() == 0 {
        before_space(created_at)
    } else {
        formatted_date(created_at, format)
    }
}

pub open spec fn table_line(k: int, m: MemoView, format: Seq<char>) -> Seq<char> {
    pad_left(decimal_text(k), 2) + "   | "@ + pad_right(table_date(m.created_at, format), 17) + " | "@
        + preview(m.content) + "\n"@
}

pub open spec fn table_lines(ms: Seq<MemoView>, format: Seq<char>) -> Seq<char>
    decreases ms.len(),
{
    if ms.len() == 0 {
        Seq::empty()
    } else {
        table_lines(ms.drop_last(), format) + table_line(ms.len() as int, ms.last(), format)
    }
}

pub open spec fn table_header() -> Seq<char> {
    "序号 | 创建时间          | 内容预览\n"@ + Seq::new(50, |_i: int| '-') + "\n"@
}

fn spaces_string(n: usize) -> (r: String)
    ensures
        r@ == spaces(n as int),
{
    let mut out = String::new();
    let mut i: usize = 0;
    while i < n
        invariant
            i <= n,
            out@ == spaces(i as int),
        decreases n - i,
    {
        out.append(" ");
        proof {
            reveal_strlit(" ");
            assert(out@ =~= spaces(i + 1));
        }
        i = i + 1;
    }
    out
}

fn padded(s: &str, w: usize, left: bool) -> (r: String)
    ensures
        r@ == if left { pad_left(s@, w as int) } else { pad_right(s@, w as int) },
{
    let n = s.unicode_len();
    let fill = spaces_string(if n < w { w - n } else { 0 });
    if left {
        fill.concat(s)
    } else {
        String::from_str(s).concat(fill.as_str())
    }
}

fn first_word(s: &str) -> (r: String)
    ensures
        r@ == before_space(s@),
{
    let n = s.unicode_len();
    let mut i: usize = 0;
    while i < n && s.get_char(i) != ' '
        invariant
            i <= n,
            n == s@.len(),
            forall|k: int| 0 <= k < i ==> s@[k] != ' ',
        decreases n - i,
    {
        i = i + 1;
    }
    proof {
        lemma_before_space(s@, i as int);
    }
    String::from_str(s.substring_char(0, i))
}

proof fn lemma_before_space(s: Seq<char>, i: int)
    requires
        0 <= i <= s.len(),
        forall|k: int| 0 <= k < i ==> s[k] != ' ',
        i == s.len() || s[i] == ' ',
    ensures
        before_space(s) == s.subrange(0, i),
    decreases i,
{
    if i == 0 {
        assert(s.subrange(0, 0) =~= Seq::<char>::empty());
    } else {
        lemma_before_space(s.drop_first(), i - 1);
        assert(s.subrange(0, i) =~= seq![s[0]] + s.drop_first().subrange(0, i - 1));
    }
}

fn utf8_width(c: char) -> (r: usize)
    ensures
        r as int == char_utf8_len(c),
{
    let v = c as u32;
    if v < 0x80 {
        1
    } else if v < 0x800 {
        2
    } else if v < 0x10000 {
        3
    } else {
        4
    }
}

/// Line breaks turned into spaces.
pub fn flatten(s: &str) -> (r: String)
    ensures
        r@ == flattened(s@),
{
    let n = s.unicode_len();
    let mut out = String::new();
    let mut i: usize = 0;
    while i < n
        invariant
            i <= n,
            n == s@.len(),
            out@ == flattened(s@.subrange(0, i as int)),
        decreases n - i,
    {
        if s.get_char(i) == '\n' {
            out.append(" ");
            proof {
                reveal_strlit(" ");
            }
        } else {
            out.append(s.substring_char(i, i + 1));
        }
        assert(out@ =~= flattened(s@.subrange(0, i + 1)));
        i = i + 1;
    }
    assert(s@.subrange(0, n as int) =~= s@);
    out
}

fn preview_of(content: &str) -> (r: String)
    ensures
        r@ == preview(content@),
{
    let f = flatten(content);
    let n = f.unicode_len();
    let k: usize = if n < 30 { n } else { 30 };
    let mut bytes: usize = 0;
    let mut i: usize = 0;
    while i < k
        invariant
            i <= k,
            k <= n,
            k <= 30,
            n == f@.len(),
            bytes as int == utf8_len(f@.subrange(0, i as int)),
            bytes <= 4 * i,
        decreases k - i,
    {
        let w = utf8_width(f.get_char(i));
        proof {
            assert(f@.subrange(0, i + 1).drop_last() =~= f@.subrange(0, i as int));
        }
        bytes = bytes + w;
        i = i + 1;
    }
    let p = String::from_str(f.as_str().substring_char(0, k));
    if bytes >= 30 {
        p.concat("...")
    } else {
        p
    }
}

fn table_row(k: usize, m: &Memo, format: &str) -> (r: String)
    requires
        k >= 1,
    ensures
        r@ == table_line(k as int, m@, format@),
{
    let date = if format.unicode_len() == 0 {
        first_word(m.created_at.as_str())
    } else {
        format_date(m.created_at.as_str(), format)
    };
    let mut line = padded(usize_string(k).as_str(), 2, true);
    line.append("   | ");
    line.append(padded(date.as_str(), 17, false).as_str());
    line.append(" | ");
    line.append(preview_of(m.content.as_str()).as_str());
    line.append("\n");
    assert(line@ =~= table_line(k as int, m@, format@));
    line
}

fn table_with(memos: &Vec<Memo>, format: &str) -> (r: String)
    ensures
        r@ == table_header() + table_lines(memo_views(memos@), format@),
{
    let ghost ms = memo_views(memos@);
    let mut out = String::from_str("序号 | 创建时间          | 内容预览\n");
    let mut d: usize = 0;
    while d < 50
        invariant
            d <= 50,
            out@ == "序号 | 创建时间          | 内容预览\n"@ + Seq::new(d as nat, |_i: int| '-'),
        decreases 50 - d,
    {
        out.append("-");
        proof {
            reveal_strlit("-");
            assert(out@ =~= "序号 | 创建时间          | 内容预览\n"@ + Seq::new((d + 1) as nat, |_i: int| '-'));
        }
        d = d + 1;
    }
    out.append("\n");
    let ghost head = out@;
    assert(head =~= table_header());
    let mut i: usize = 0;
    while i < memos.len()
        invariant
            i <= memos@.len(),
            ms == memo_views(memos@),
            head == table_header(),
            out@ == head + table_lines(ms.subrange(0, i as int), format@),
        decreases memos@.len() - i,
    {
        proof {
            assert(ms.subrange(0, i + 1).drop_last() =~= ms.subrange(0, i as int));
        }
        let row = table_row(i + 1, &memos[i], format);
        out.append(row.as_str());
        assert(out@ =~= head + table_lines(ms.subrange(0, i + 1), format@));
        i = i + 1;
    }
    assert(ms.subrange(0, memos@.len() as int) =~= ms);
    out
}

/// All memos as a plain-text table: number, creation date (the text before
/// its first space) and a content preview.
pub fn format_memos_table(memos: Vec<Memo>) -> (r: String)
    ensures
        r@ == table_header() + table_lines(memo_views(memos@), Seq::empty()),
{
    proof {
        reveal_strlit("");
        assert(""@ =~= Seq::<char>::empty());
    }
    table_with(&memos, "")
}

/// The table with the creation date in a user date format (as
/// `format_memos_table` when the format is empty).
pub fn format_memos_table_with_options(memos: Vec<Memo>, date_format: &str) -> (r: String)
    ensures
        r@ == table_header() + table_lines(memo_views(memos@), date_format@),
{
    table_with(&memos, date_format)
}

} // verus!

verus! {

/// The one-line form of the memo numbered `k`: number, date when a format
/// is given and the date is not empty, and the flattened content.
pub open spec fn minimal_line(k: int, m: MemoView, format: Seq<char>) -> Seq<char> {
    let date = if format.len() == 0 { Seq::empty() } else { formatted_date(m.created_at, format) };
    if date.len() == 0 {
        decimal_text(k) + "|"@ + flattened(m.content) + "\n"@
    } else {
        decimal_text(k) + "|"@ + date + "|"@ + flattened(m.content) + "\n"@
    }
}

/// The link line for `url_mode`: `full` gives the link, `id` the slug,
/// anything else nothing.
pub open spec fn url_part(m: MemoView, url_mode: Seq<char>) -> Seq<char> {
    if url_mode == "full"@ {
        link_line(m)
    } else if url_mode == "id"@ {
        "**ID**: "@ + m.slug + "\n"@
    } else {
        Seq::empty()
    }
}

pub open spec fn entry_heading(k: int, m: MemoView, format: Seq<char>) -> Seq<char> {
    if format.len() > 0 {
        "## "@ + decimal_text(k) + ". "@ + formatted_date(m.created_at, format) + "\n\n"@
    } else {
        "## "@ + decimal_text(k) + "\n\n"@
    }
}

/// The full Markdown entry of the memo numbered `k`.
pub open spec fn full_entry(k: int, m: MemoView, url_mode: Seq<char>, format: Seq<char>) -> Seq<char> {
    entry_heading(k, m, format) + trimmed(m.content) + "\n"@ + url_part(m, url_mode) + tag_line(m)
        + "\n---\n\n"@
}

pub open spec fn option_entries(
    ms: Seq<MemoView>,
    url_mode: Seq<char>,
    format: Seq<char>,
    minimal: bool,
) -> Seq<char>
    decreases ms.len(),
{
    if ms.len() == 0 {
        Seq::empty()
    } else {
        option_entries(ms.drop_last(), url_mode, format, minimal) + if minimal {
            minimal_line(ms.len() as int, ms.last(), format)
        } else {
            full_entry(ms.len() as int, ms.last(), url_mode, format)
        }
    }
}

fn minimal_row(k: usize, m: &Memo, format: &str) -> (r: String)
    ensures
        r@ == minimal_line(k as int, m@, format@),
{
    let date = if format.unicode_len() == 0 {
        String::new()
    } else {
        format_date(m.created_at.as_str(), format)
    };
    let mut line = usize_string(k);
    line.append("|");
    if date.as_str().unicode_len() > 0 {
        line.append(date.as_str());
        line.append("|");
    }
    line.append(flatten(m.content.as_str()).as_str());
    line.append("\n");
    assert(line@ =~= minimal_line(k as int, m@, format@));
    line
}

fn full_row(k: usize, m: &Memo, url_mode: &str, format: &str) -> (r: String)
    ensures
        r@ == full_entry(k as int, m@, url_mode@, format@),
{
    let mut out = String::from_str("## ");
    out.append(usize_string(k).as_str());
    if format.unicode_len() > 0 {
        out.append(". ");
        out.append(format_date(m.created_at.as_str(), format).as_str());
    }
    out.append("\n\n");
    assert(out@ =~= entry_heading(k as int, m@, format@));
    out.append(trim_text(m.content.as_str()).as_str());
    out.append("\n");
    if str_eq(url_mode, "full") {
        if let Some(u) = &m.url {
            out.append("**链接**: ");
            out.append(u.as_str());
            out.append("\n");
        }
    } else if str_eq(url_mode, "id") {
        out.append("**ID**: ");
        out.append(m.slug.as_str());
        out.append("\n");
    }
    if m.tags.len() > 0 {
        out.append("**标签**: ");
        out.append(join_tags(&m.tags).as_str());
        out.append("\n");
    }
    out.append("\n---\n\n");
    assert(out@ =~= full_entry(k as int, m@, url_mode@, format@));
    out
}

/// All memos as Markdown, either one line each (`minimal`) or as full
/// entries with a heading, the trimmed content, the link line that
/// `url_mode` asks for and the tags; dates in `date_format` when given.
pub fn format_memos_markdown_with_options(
    memos: Vec<Memo>,
    url_mode: &str,
    date_format: &str,
    minimal: bool,
) -> (r: String)
    ensures
        r@ == (if minimal {
            Seq::empty()
        } else {
            "# Flomo 备忘录\n\n"@
        }) + option_entries(memo_views(memos@), url_mode@, date_format@, minimal),
{
    let ghost ms = memo_views(memos@);
    let mut out = if minimal {
        String::new()
    } else {
        String::from_str("# Flomo 备忘录\n\n")
    };
    let ghost head = out@;
    assert(out@ =~= head + option_entries(ms.subrange(0, 0), url_mode@, date_format@, minimal));
    let mut i: usize = 0;
    while i < memos.len()
        invariant
            i <= memos@.len(),
            ms == memo_views(memos@),
            out@ == head + option_entries(ms.subrange(0, i as int), url_mode@, date_format@, minimal),
        decreases memos@.len() - i,
    {
        proof {
            assert(ms.subrange(0, i + 1).drop_last() =~= ms.subrange(0, i as int));
        }
        let entry = if minimal {
            minimal_row(i + 1, &memos[i], date_format)
        } else {
            full_row(i + 1, &memos[i], url_mode, date_format)
        };
        out.append(entry.as_str());
        assert(out@ =~= head + option_entries(ms.subrange(0, i + 1), url_mode@, date_format@, minimal));
        i = i + 1;
    }
    assert(ms.subrange(0, memos@.len() as int) =~= ms);
    out
}

} // verus!
