//! Basic Discord markdown: `**bold**`, `~~strike~~`, `` `code` `` and
//! `*italic*`, split into styled spans. A marker that is never closed, or
//! that closes on nothing, stays literal text.
use vstd::prelude::*;

use crate::models::has_prefix;
use crate::text::{chars_of, push_range};

verus! {

#[derive(Debug, Clone, PartialEq)]
pub struct Span {
    pub text: String,
    pub bold: bool,
    pub italic: bool,
    pub strike: bool,
    pub code: bool,
}

/// The abstract value of a span.
pub struct SpanView {
    pub text: Seq<char>,
    pub bold: bool,
    pub italic: bool,
    pub strike: bool,
    pub code: bool,
}

impl View for Span {
    type V = SpanView;

    open spec fn view(&self) -> SpanView {
        SpanView {
            text: self.text@,
            bold: self.bold,
            italic: self.italic,
            strike: self.strike,
            code: self.code,
        }
    }
}

/// The views of a sequence of spans.
pub open spec fn span_views(s: Seq<Span>) -> Seq<SpanView> {
    s.map_values(|x: Span| x@)
}

/// The recognised markers, in the order in which they are tried.
pub open spec fn markers() -> Seq<Seq<char>> {
    seq!["**"@, "~~"@, "`"@, "*"@]
}

/// A span of plain text.
pub open spec fn neutral_view(text: Seq<char>) -> SpanView {
    SpanView { text, bold: false, italic: false, strike: false, code: false }
}

/// The span that marker `k` gives its content.
pub open spec fn styled_view(text: Seq<char>, k: int) -> SpanView {
    SpanView { text, bold: k == 0, italic: k == 3, strike: k == 1, code: k == 2 }
}

/// The first position at or after `i` where `pat` occurs in `s`.
pub open spec fn find_from(s: Seq<char>, pat: Seq<char>, i: int) -> Option<int>
    decreases s.len() + 1 - i,
{
    if i < 0 || i + pat.len() > s.len() {
        None
    } else if s.subrange(i, i + pat.len() as int) == pat {
        Some(i)
    } else {
        find_from(s, pat, i + 1)
    }
}

pub proof fn lemma_find_from_bounds(s: Seq<char>, pat: Seq<char>, i: int)
    ensures
        find_from(s, pat, i) matches Some(j) ==> i <= j && j + pat.len() <= s.len()
            && s.subrange(j, j + pat.len() as int) == pat,
    decreases s.len() + 1 - i,
{
    if i < 0 || i + pat.len() > s.len() {
    } else if s.subrange(i, i + pat.len() as int) == pat {
    } else {
        lemma_find_from_bounds(s, pat, i + 1);
    }
}

/// Where the content of marker `k` opened at `pos` ends, if the marker opens
/// there and closes on a non-empty content.
pub open spec fn try_marker(s: Seq<char>, pos: int, k: int) -> Option<int> {
    let m = markers()[k];
    if 0 <= pos && has_prefix(s.skip(pos), m) {
        match find_from(s, m, pos + m.len()) {
            Some(e) => if e > pos + m.len() {
                Some(e)
            } else {
                None
            },
            None => None,
        }
    } else {
        None
    }
}

/// The first marker, from the `k`-th on, that applies at `pos`, with the end of its content.
pub open spec fn first_marker(s: Seq<char>, pos: int, k: int) -> Option<(int, int)>
    decreases 4 - k,
{
    if k < 0 || k >= 4 {
        None
    } else {
        match try_marker(s, pos, k) {
            Some(e) => Some((k, e)),
            None => first_marker(s, pos, k + 1),
        }
    }
}

pub proof fn lemma_first_marker(s: Seq<char>, pos: int, k: int)
    requires
        0 <= k,
    ensures
        first_marker(s, pos, k) matches Some((mk, e)) ==> k <= mk < 4 && try_marker(s, pos, mk)
            == Some(e) && pos + markers()[mk].len() < e && e + markers()[mk].len() <= s.len(),
    decreases 4 - k,
{
    if k < 4 {
        lemma_first_marker(s, pos, k + 1);
        let m = markers()[k];
        lemma_find_from_bounds(s, m, pos + m.len());
    }
}

/// The spans of `s[pos..]`, with `buf` the plain text gathered so far.
pub open spec fn md(s: Seq<char>, pos: int, buf: Seq<char>) -> Seq<SpanView>
    decreases s.len() - pos,
{
    if pos < 0 || pos >= s.len() {
        if buf.len() > 0 {
            seq![neutral_view(buf)]
        } else {
            Seq::empty()
        }
    } else {
        match first_marker(s, pos, 0) {
            Some((k, e)) => {
                proof {
                    lemma_first_marker(s, pos, 0);
                }
                let flushed = if buf.len() > 0 {
                    seq![neutral_view(buf)]
                } else {
                    Seq::empty()
                };
                let ml = markers()[k].len();
                flushed.push(styled_view(s.subrange(pos + ml, e), k)) + md(s, e + ml, Seq::empty())
            },
            None => md(s, pos + 1, buf.push(s[pos])),
        }
    }
}

/// The spans of a message.
pub open spec fn parse_markdown_spec(s: Seq<char>) -> Seq<SpanView> {
    md(s, 0, Seq::empty())
}

/// The marker a span was written with, if any.
pub open spec fn marker_of(v: SpanView) -> Option<int> {
    if v.bold {
        Some(0)
    } else if v.strike {
        Some(1)
    } else if v.code {
        Some(2)
    } else if v.italic {
        Some(3)
    } else {
        None
    }
}

/// The source text of a span: its text, between its markers if it has some.
pub open spec fn span_source(v: SpanView) -> Seq<char> {
    match marker_of(v) {
        Some(k) => markers()[k] + v.text + markers()[k],
        None => v.text,
    }
}

/// The source text of a sequence of spans.
pub open spec fn source_of(spans: Seq<SpanView>) -> Seq<char>
    decreases spans.len(),
{
    if spans.len() == 0 {
        Seq::empty()
    } else {
        source_of(spans.drop_last()) + span_source(spans.last())
    }
}

proof fn lemma_source_concat(a: Seq<SpanView>, b: Seq<SpanView>)
    ensures
        source_of(a + b) == source_of(a) + source_of(b),
    decreases b.len(),
{
    if b.len() == 0 {
        assert(a + b == a);
    } else {
        lemma_source_concat(a, b.drop_last());
        assert((a + b).drop_last() == a + b.drop_last());
        assert((a + b).last() == b.last());
    }
}

proof fn lemma_source_single(v: SpanView)
    ensures
        source_of(seq![v]) == span_source(v),
{
    assert(source_of(Seq::<SpanView>::empty()) == Seq::<char>::empty());
    assert(seq![v].drop_last() == Seq::<SpanView>::empty());
    assert(seq![v].last() == v);
    assert(Seq::<char>::empty() + span_source(v) == span_source(v));
}

proof fn lemma_md_lossless(s: Seq<char>, pos: int, buf: Seq<char>)
    requires
        0 <= pos <= s.len(),
    ensures
        source_of(md(s, pos, buf)) == buf + s.skip(pos),
    decreases s.len() - pos,
{
    if pos == s.len() {
        lemma_source_single(neutral_view(buf));
        assert(buf + s.skip(pos) == buf);
    } else {
        match first_marker(s, pos, 0) {
            Some((k, e)) => {
                lemma_first_marker(s, pos, 0);
                let m = markers()[k];
                let ml = m.len() as int;
                lemma_find_from_bounds(s, m, pos + ml);
                lemma_md_lossless(s, e + ml, Seq::empty());
                let flushed = if buf.len() > 0 {
                    seq![neutral_view(buf)]
                } else {
                    Seq::<SpanView>::empty()
                };
                let sv = styled_view(s.subrange(pos + ml, e), k);
                let rest = md(s, e + ml, Seq::empty());
                assert(md(s, pos, buf) == flushed.push(sv) + rest);
                lemma_source_concat(flushed.push(sv), rest);
                lemma_source_single(neutral_view(buf));
                assert(source_of(flushed) == buf);
                assert(flushed.push(sv).drop_last() == flushed);
                assert(marker_of(sv) == Some(k));
                assert(s.skip(pos).take(ml) == m);
                assert(s.skip(pos) =~= m + s.subrange(pos + ml, e) + m + s.skip(e + ml)) by {
                    assert(s.subrange(e, e + ml) == m);
                    assert forall|j: int| 0 <= j < s.skip(pos).len() implies s.skip(pos)[j] == (m
                        + s.subrange(pos + ml, e) + m + s.skip(e + ml))[j] by {
                        if j < ml {
                            assert(s.skip(pos).take(ml)[j] == s.skip(pos)[j]);
                        } else if j < e - pos {
                        } else if j < e - pos + ml {
                            assert(s.subrange(e, e + ml)[j - (e - pos)] == s[e + j - (e - pos)]);
                        }
                    }
                }
                assert(Seq::<char>::empty() + s.skip(e + ml) == s.skip(e + ml));
            },
            None => {
                lemma_md_lossless(s, pos + 1, buf.push(s[pos]));
                assert(buf.push(s[pos]) + s.skip(pos + 1) =~= buf + s.skip(pos));
            },
        }
    }
}

/// Nothing of a message is lost: writing each span back with its markers
/// gives the message again, markers that applied and literal text alike.
pub proof fn law_markdown_lossless(s: Seq<char>)
    ensures
        source_of(parse_markdown_spec(s)) == s,
{
    lemma_md_lossless(s, 0, Seq::empty());
    assert(Seq::<char>::empty() + s.skip(0) == s);
}

/// No span is empty, and a plain span is never followed by another plain span.
pub open spec fn spans_merged(spans: Seq<SpanView>) -> bool {
    forall|k: int|
        0 <= k < spans.len() ==> (#[trigger] spans[k]).text.len() > 0 && (marker_of(spans[k]) is None
            && k + 1 < spans.len() ==> marker_of(spans[k + 1]) is Some)
}

proof fn lemma_md_merged(s: Seq<char>, pos: int, buf: Seq<char>)
    ensures
        spans_merged(md(s, pos, buf)),
    decreases s.len() - pos,
{
    if 0 <= pos < s.len() {
        match first_marker(s, pos, 0) {
            Some((k, e)) => {
                lemma_first_marker(s, pos, 0);
                let ml = markers()[k].len() as int;
                lemma_md_merged(s, e + ml, Seq::empty());
                let flushed = if buf.len() > 0 {
                    seq![neutral_view(buf)]
                } else {
                    Seq::<SpanView>::empty()
                };
                let sv = styled_view(s.subrange(pos + ml, e), k);
                let h = flushed.push(sv);
                let t = md(s, e + ml, Seq::empty());
                let r = h + t;
                assert(r == md(s, pos, buf));
                assert(marker_of(sv) == Some(k));
                assert forall|j: int| 0 <= j < r.len() implies (#[trigger] r[j]).text.len() > 0 && (
                marker_of(r[j]) is None && j + 1 < r.len() ==> marker_of(r[j + 1]) is Some) by {
                    if j < h.len() {
                        assert(r[j] == h[j]);
                        if j + 1 < h.len() {
                            assert(r[j + 1] == h[j + 1]);
                        }
                    } else {
                        assert(r[j] == t[j - h.len()]);
                        if j + 1 < r.len() {
                            assert(r[j + 1] == t[j + 1 - h.len()]);
                        }
                    }
                }
            },
            None => {
                lemma_md_merged(s, pos + 1, buf.push(s[pos]));
            },
        }
    }
}

/// No span of any message is empty, and neighbouring plain text always
/// forms a single span.
pub proof fn law_markdown_spans_merged(s: Seq<char>)
    ensures
        spans_merged(parse_markdown_spec(s)),
{
    lemma_md_merged(s, 0, Seq::empty());
}

/// Whether a character can start a marker.
pub open spec fn is_marker_char(c: char) -> bool {
    c == '*' || c == '~' || c == '`'
}

/// The spans of plain text `t`: one plain span, or none when `t` is empty.
pub open spec fn plain_spans(t: Seq<char>) -> Seq<SpanView> {
    if t.len() > 0 {
        seq![neutral_view(t)]
    } else {
        Seq::empty()
    }
}

proof fn lemma_md_plain(s: Seq<char>, pos: int, buf: Seq<char>)
    requires
        0 <= pos <= s.len(),
        forall|i: int| pos <= i < s.len() ==> !is_marker_char(#[trigger] s[i]),
    ensures
        md(s, pos, buf) == plain_spans(buf + s.skip(pos)),
    decreases s.len() - pos,
{
    reveal_strlit("**");
    reveal_strlit("~~");
    reveal_strlit("`");
    reveal_strlit("*");
    if pos == s.len() {
        assert(buf + s.skip(pos) == buf);
    } else {
        assert forall|k: int| 0 <= k < 4 implies try_marker(s, pos, k) is None by {
            let m = markers()[k];
            assert(m.len() > 0 && is_marker_char(m[0]));
            if has_prefix(s.skip(pos), m) {
                assert(s.skip(pos).take(m.len() as int)[0] == s[pos]);
            }
        }
        assert(first_marker(s, pos, 4) is None);
        assert(try_marker(s, pos, 3) is None);
        assert(first_marker(s, pos, 3) is None);
        assert(first_marker(s, pos, 2) is None);
        assert(first_marker(s, pos, 1) is None);
        assert(first_marker(s, pos, 0) is None);
        lemma_md_plain(s, pos + 1, buf.push(s[pos]));
        assert(buf.push(s[pos]) + s.skip(pos + 1) =~= buf + s.skip(pos));
    }
}

/// A message without `*`, `~` or `` ` `` is a single plain span (none when
/// it is empty).
pub proof fn law_markdown_plain_text(s: Seq<char>)
    requires
        forall|i: int| 0 <= i < s.len() ==> !is_marker_char(#[trigger] s[i]),
    ensures
        parse_markdown_spec(s) == plain_spans(s),
{
    lemma_md_plain(s, 0, Seq::empty());
    assert(Seq::<char>::empty() + s.skip(0) == s);
}

impl Span {
    /// A span of plain text.
    fn neutral(text: String) -> (r: Span)
        ensures
            r@ == neutral_view(text@),
    {
        Span { text, bold: false, italic: false, strike: false, code: false }
    }
}

/// Whether the characters `v[at..]` begin with `p`.
fn prefix_at(v: &Vec<char>, at: usize, p: &Vec<char>) -> (r: bool)
    requires
        at <= v@.len(),
    ensures
        r == has_prefix(v@.skip(at as int), p@),
{
    if p.len() > v.len() - at {
        return false;
    }
    let mut i: usize = 0;
    while i < p.len()
        invariant
            i <= p@.len(),
            at + p@.len() <= v@.len(),
            v@.len() == v.len(),
            forall|j: int| 0 <= j < i ==> v@[at + j] == p@[j],
        decreases p@.len() - i,
    {
        if v[at + i] != p[i] {
            assert(v@.skip(at as int).take(p@.len() as int)[i as int] != p@[i as int]);
            return false;
        }
        i = i + 1;
    }
    assert(v@.skip(at as int).take(p@.len() as int) =~= p@);
    true
}

/// The first occurrence of `p` in `v` at or after `from`.
fn find_exec(v: &Vec<char>, p: &Vec<char>, from: usize) -> (r: Option<usize>)
    requires
        p@.len() > 0,
    ensures
        match r {
            Some(j) => find_from(v@, p@, from as int) == Some(j as int),
            None => find_from(v@, p@, from as int) is None,
        },
{
    let mut j = from;
    while j <= v.len() && p.len() <= v.len() - j
        invariant
            from <= j,
            p@.len() > 0,
            v@.len() == v.len(),
            find_from(v@, p@, from as int) == find_from(v@, p@, j as int),
        decreases v@.len() - j,
    {
        if prefix_at(v, j, p) {
            assert(v@.skip(j as int).take(p@.len() as int) == v@.subrange(j as int, j + p@.len()));
            return Some(j);
        }
        assert(v@.skip(j as int).take(p@.len() as int) == v@.subrange(j as int, j + p@.len()));
        j = j + 1;
    }
    None
}

pub proof fn lemma_markers_nonempty()
    ensures
        forall|k: int| 0 <= k < 4 ==> (#[trigger] markers()[k]).len() > 0,
{
    reveal_strlit("**");
    reveal_strlit("~~");
    reveal_strlit("`");
    reveal_strlit("*");
    assert(markers()[0].len() > 0);
    assert(markers()[1].len() > 0);
    assert(markers()[2].len() > 0);
    assert(markers()[3].len() > 0);
}

/// The first marker that applies at `pos`, with the end of its content.
fn first_marker_exec(v: &Vec<char>, pos: usize, ms: &Vec<Vec<char>>) -> (r: Option<(usize, usize)>)
    requires
        pos < v@.len(),
        ms@.len() == 4,
        forall|k: int| 0 <= k < 4 ==> (#[trigger] ms@[k])@ == markers()[k],
    ensures
        match r {
            Some((k, e)) => first_marker(v@, pos as int, 0) == Some((k as int, e as int)),
            None => first_marker(v@, pos as int, 0) is None,
        },
{
    let mut k: usize = 0;
    while k < 4
        invariant
            k <= 4,
            pos < v@.len(),
            v@.len() == v.len(),
            ms@.len() == 4,
            forall|k: int| 0 <= k < 4 ==> (#[trigger] ms@[k])@ == markers()[k],
            first_marker(v@, pos as int, 0) == first_marker(v@, pos as int, k as int),
        decreases 4 - k,
    {
        let m = &ms[k];
        assert(m@ == markers()[k as int]);
        proof {
            lemma_markers_nonempty();
        }
        if prefix_at(v, pos, m) {
            let open_end = pos + m.len();
            if let Some(e) = find_exec(v, m, open_end) {
                if e > open_end {
                    return Some((k, e));
                }
            }
        }
        k = k + 1;
    }
    None
}

/// Splits a message into plain and styled spans. Markers are tried in the
/// order `**`, `~~`, `` ` ``, `*`; a marker applies when it closes later on
/// a non-empty content. Neighbouring plain characters form one span.
pub fn parse_markdown(input: &str) -> (r: Vec<Span>)
    ensures
        span_views(r@) == parse_markdown_spec(input@),
{
    let v = chars_of(input);
    let mut ms: Vec<Vec<char>> = Vec::new();
    ms.push(chars_of("**"));
    ms.push(chars_of("~~"));
    ms.push(chars_of("`"));
    ms.push(chars_of("*"));
    let mut spans: Vec<Span> = Vec::new();
    let mut buf = String::new();
    let mut pos: usize = 0;
    while pos < v.len()
        invariant
            pos <= v@.len(),
            v@.len() == v.len(),
            v@ == input@,
            ms@.len() == 4,
            forall|k: int| 0 <= k < 4 ==> (#[trigger] ms@[k])@ == markers()[k],
            span_views(spans@) + md(v@, pos as int, buf@) == parse_markdown_spec(input@),
        decreases v@.len() - pos,
    {
        let ghost before = span_views(spans@);
        match first_marker_exec(&v, pos, &ms) {
            Some((k, e)) => {
                proof {
                    lemma_first_marker(v@, pos as int, 0);
                }
                let ml = ms[k].len();
                assert(ml == markers()[k as int].len());
                let ghost flushed = if buf@.len() > 0 {
                    seq![neutral_view(buf@)]
                } else {
                    Seq::<SpanView>::empty()
                };
                if !buf.as_str().is_empty() {
                    assert(buf@.len() > 0);
                    let b = buf;
                    spans.push(Span::neutral(b));
                    buf = String::new();
                } else {
                    assert(buf@.len() == 0);
                }
                assert(span_views(spans@) == before + flushed);
                let mut text = String::new();
                push_range(&mut text, &v, pos + ml, e);
                let span = Span {
                    text,
                    bold: k == 0,
                    italic: k == 3,
                    strike: k == 1,
                    code: k == 2,
                };
                spans.push(span);
                assert(span_views(spans@) == before + flushed.push(
                    styled_view(v@.subrange(pos + ml, e as int), k as int),
                ));
                pos = e + ml;
                assert(buf@ == Seq::<char>::empty());
            },
            None => {
                let c = v[pos];
                buf.push(c);
                pos = pos + 1;
            },
        }
    }
    if !buf.as_str().is_empty() {
        let ghost before = span_views(spans@);
        spans.push(Span::neutral(buf));
        assert(span_views(spans@) == before.push(neutral_view(buf@)));
    }
    spans
}

} // verus!
