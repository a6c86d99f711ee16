//! Emoji segmentation: a string is cut into text and emoji segments, Discord
//! custom emojis `<:name:id>` / `<a:name:id>` first, then Unicode emojis by
//! grapheme cluster, each mapped to the URL of its colour image.
use vstd::prelude::*;
use vstd::string::{StrSliceExecFns, StringExecFns};
use unicode_segmentation::UnicodeSegmentation;

use crate::text::{chars_of, hex, push_hex, push_range, string_of_range};

verus! {

#[derive(Debug, Clone, PartialEq)]
pub enum EmojiSeg {
    Text(String),
    Emoji { url: String },
}

/// The abstract value of a segment.
pub enum EmojiSegView {
    Text(Seq<char>),
    Emoji(Seq<char>),
}

impl View for EmojiSeg {
    type V = EmojiSegView;

    open spec fn view(&self) -> EmojiSegView {
        match self {
            EmojiSeg::Text(t) => EmojiSegView::Text(t@),
            EmojiSeg::Emoji { url } => EmojiSegView::Emoji(url@),
        }
    }
}

/// The views of a sequence of segments.
pub open spec fn seg_views(s: Seq<EmojiSeg>) -> Seq<EmojiSegView> {
    s.map_values(|x: EmojiSeg| x@)
}

/// U+200D ZERO WIDTH JOINER.
pub open spec fn zwj() -> char {
    '\u{200D}'
}

/// U+FE0F VARIATION SELECTOR-16.
pub open spec fn vs16() -> char {
    '\u{FE0F}'
}

/// The URL of a Discord custom emoji image.
pub open spec fn custom_emoji_url_spec(id: Seq<char>) -> Seq<char> {
    "https://cdn.discordapp.com/emojis/"@ + id + ".png?size=44"@
}

pub fn custom_emoji_url(id: &str) -> (r: String)
    ensures
        r@ == custom_emoji_url_spec(id@),
{
    let mut r = String::new();
    r.append("https://cdn.discordapp.com/emojis/");
    r.append(id);
    r.append(".png?size=44");
    r
}

/// The characters of a grapheme that name its twemoji image: U+FE0F is
/// dropped unless the grapheme holds a zero width joiner.
pub open spec fn twemoji_chars(g: Seq<char>, keep_vs16: bool) -> Seq<char>
    decreases g.len(),
{
    if g.len() == 0 {
        Seq::empty()
    } else {
        let rest = twemoji_chars(g.drop_last(), keep_vs16);
        if keep_vs16 || g.last() != vs16() {
            rest.push(g.last())
        } else {
            rest
        }
    }
}

/// The lowercase hexadecimal code points of `cs`, joined by `-`.
pub open spec fn join_hex(cs: Seq<char>) -> Seq<char>
    decreases cs.len(),
{
    if cs.len() == 0 {
        Seq::empty()
    } else if cs.len() == 1 {
        hex((cs[0] as u32) as nat)
    } else {
        join_hex(cs.drop_last()).push('-') + hex((cs.last() as u32) as nat)
    }
}

/// The twemoji code of a grapheme.
pub open spec fn twemoji_code_spec(g: Seq<char>) -> Seq<char> {
    join_hex(twemoji_chars(g, g.contains(zwj())))
}

/// Twemoji code: lowercase hexadecimal code points joined by `-`, with
/// U+FE0F removed unless a zero width joiner is present.
pub fn twemoji_code(grapheme: &str) -> (r: String)
    ensures
        r@ == twemoji_code_spec(grapheme@),
{
    let g = chars_of(grapheme);
    let mut has_zwj = false;
    let mut i: usize = 0;
    while i < g.len()
        invariant
            i <= g@.len(),
            has_zwj == g@.take(i as int).contains(zwj()),
        decreases g@.len() - i,
    {
        if g[i] == '\u{200D}' {
            has_zwj = true;
        }
        i = i + 1;
        assert(g@.take(i as int) == g@.take(i - 1).push(g@[i - 1]));
        assert(g@.take(i as int).contains(zwj()) == (g@.take(i - 1).contains(zwj()) || g@[i - 1]
            == zwj())) by {
            if g@.take(i - 1).contains(zwj()) {
                let k = choose|k: int| 0 <= k < i - 1 && #[trigger] g@.take(i - 1)[k] == zwj();
                assert(g@.take(i as int)[k] == zwj());
            }
            if g@[i - 1] == zwj() {
                assert(g@.take(i as int)[i - 1] == zwj());
            }
            if g@.take(i as int).contains(zwj()) {
                let k = choose|k: int| 0 <= k < i && #[trigger] g@.take(i as int)[k] == zwj();
                if k < i - 1 {
                    assert(g@.take(i - 1)[k] == zwj());
                }
            }
        }
    }
    assert(g@.take(i as int) == g@);
    let mut out = String::new();
    let mut kept: usize = 0;
    let mut j: usize = 0;
    while j < g.len()
        invariant
            j <= g@.len(),
            has_zwj == g@.contains(zwj()),
            kept as nat == twemoji_chars(g@.take(j as int), has_zwj).len(),
            kept <= j,
            out@ == join_hex(twemoji_chars(g@.take(j as int), has_zwj)),
        decreases g@.len() - j,
    {
        let c = g[j];
        let ghost prev = twemoji_chars(g@.take(j as int), has_zwj);
        assert(g@.take(j + 1).drop_last() == g@.take(j as int));
        if has_zwj || c != '\u{FE0F}' {
            let ghost out0 = out@;
            if kept > 0 {
                out.push('-');
            }
            let cv: u64 = c as u32 as u64;
            assert(cv as nat == (c as u32) as nat);
            push_hex(&mut out, cv);
            kept = kept + 1;
            proof {
                let now = twemoji_chars(g@.take(j + 1), has_zwj);
                assert(now == prev.push(c));
                assert(now.drop_last() == prev);
                assert(now.last() == c);
                if prev.len() == 0 {
                    assert(now.len() == 1);
                    assert(now[0] == c);
                    assert(join_hex(now) == hex((c as u32) as nat));
                    assert(out0 == Seq::<char>::empty());
                    assert(out@ == join_hex(now));
                } else {
                    assert(join_hex(now) == join_hex(prev).push('-') + hex((c as u32) as nat));
                    assert(out@ == out0.push('-') + hex((c as u32) as nat));
                }
            }
        } else {
            assert(twemoji_chars(g@.take(j + 1), has_zwj) == prev);
        }
        j = j + 1;
    }
    assert(g@.take(j as int) == g@);
    out
}

/// The URL of the twemoji image of a grapheme.
pub open spec fn twemoji_url_spec(g: Seq<char>) -> Seq<char> {
    "https://cdn.jsdelivr.net/gh/jdecked/twemoji@15.1.0/assets/72x72/"@ + twemoji_code_spec(g)
        + ".png"@
}

pub fn twemoji_url(grapheme: &str) -> (r: String)
    ensures
        r@ == twemoji_url_spec(grapheme@),
{
    let mut r = String::new();
    r.append("https://cdn.jsdelivr.net/gh/jdecked/twemoji@15.1.0/assets/72x72/");
    let code = twemoji_code(grapheme);
    r.append(code.as_str());
    r.append(".png");
    r
}

/// Whether a character has the Unicode property Emoji_Presentation.
pub uninterp spec fn emoji_presentation(c: char) -> bool;

/// `unic_emoji_char::is_emoji_presentation`: the crate's table of the Unicode
/// property Emoji_Presentation. The result is named, not described.
#[verifier::external_body]
fn has_emoji_presentation(c: char) -> (r: bool)
    ensures
        r == emoji_presentation(c),
{
    unic_emoji_char::is_emoji_presentation(c)
}

/// The first extended grapheme cluster of a string.
pub uninterp spec fn first_grapheme(s: Seq<char>) -> Seq<char>;

/// `UnicodeSegmentation::graphemes(s, true).next()` on a non-empty string:
/// its first extended grapheme cluster, which the crate cuts as a non-empty
/// prefix of `s`. Where the cluster ends is named, not described.
#[verifier::external_body]
fn first_grapheme_of(s: &str) -> (r: String)
    requires
        s@.len() > 0,
    ensures
        r@ == first_grapheme(s@),
        0 < r@.len() <= s@.len(),
        r@ == s@.take(r@.len() as int),
{
    s.graphemes(true).next().unwrap().to_string()
}

/// A grapheme is an emoji when it holds U+FE0F or its first character has
/// emoji presentation.
pub open spec fn is_emoji_grapheme_spec(g: Seq<char>) -> bool {
    g.contains(vs16()) || (g.len() > 0 && emoji_presentation(g[0]))
}

fn is_emoji_grapheme(g: &Vec<char>) -> (r: bool)
    ensures
        r == is_emoji_grapheme_spec(g@),
{
    let mut i: usize = 0;
    while i < g.len()
        invariant
            i <= g@.len(),
            forall|k: int| 0 <= k < i ==> g@[k] != vs16(),
        decreases g@.len() - i,
    {
        if g[i] == '\u{FE0F}' {
            assert(g@[i as int] == vs16());
            return true;
        }
        i = i + 1;
    }
    if g.len() > 0 {
        has_emoji_presentation(g[0])
    } else {
        false
    }
}

/// The end of a custom emoji's name: the first `:` or `>` at or after `i`, or the end.
pub open spec fn name_end(s: Seq<char>, i: int) -> int
    decreases s.len() - i,
{
    if i < 0 || i >= s.len() || s[i] == ':' || s[i] == '>' {
        i
    } else {
        name_end(s, i + 1)
    }
}

/// The end of a run of ASCII digits starting at `i`.
pub open spec fn digits_end(s: Seq<char>, i: int) -> int
    decreases s.len() - i,
{
    if i < 0 || i >= s.len() || !('0' <= s[i] <= '9') {
        i
    } else {
        digits_end(s, i + 1)
    }
}

pub proof fn lemma_scan_bounds(s: Seq<char>, i: int)
    requires
        0 <= i <= s.len(),
    ensures
        i <= name_end(s, i) <= s.len(),
        i <= digits_end(s, i) <= s.len(),
    decreases s.len() - i,
{
    if i < s.len() {
        lemma_scan_bounds(s, i + 1);
    }
}

/// A custom emoji `<:name:id>` or `<a:name:id>` starting at `pos`: the
/// position after it and its id.
pub open spec fn parse_custom_spec(s: Seq<char>, pos: int) -> Option<(int, Seq<char>)> {
    if pos < 0 || pos >= s.len() || s[pos] != '<' {
        None
    } else {
        let i = if pos + 1 < s.len() && s[pos + 1] == 'a' {
            pos + 2
        } else {
            pos + 1
        };
        if i >= s.len() || s[i] != ':' {
            None
        } else {
            let ne = name_end(s, i + 1);
            if ne == i + 1 || ne >= s.len() || s[ne] != ':' {
                None
            } else {
                let de = digits_end(s, ne + 1);
                if de == ne + 1 || de >= s.len() || s[de] != '>' {
                    None
                } else {
                    Some((de + 1, s.subrange(ne + 1, de)))
                }
            }
        }
    }
}

/// Tries to read a custom emoji at `pos`; gives the position after it and its id.
fn parse_custom(v: &Vec<char>, pos: usize) -> (r: Option<(usize, String)>)
    requires
        pos < v@.len(),
    ensures
        match r {
            Some((end, id)) => parse_custom_spec(v@, pos as int) == Some((end as int, id@)),
            None => parse_custom_spec(v@, pos as int) is None,
        },
{
    let n = v.len();
    if v[pos] != '<' {
        return None;
    }
    let mut i = pos + 1;
    if i < n && v[i] == 'a' {
        i = i + 1;
    }
    if i >= n || v[i] != ':' {
        return None;
    }
    i = i + 1;
    let name_start = i;
    while i < n && v[i] != ':' && v[i] != '>'
        invariant
            name_start <= i <= n,
            n == v@.len(),
            name_end(v@, name_start as int) == name_end(v@, i as int),
        decreases n - i,
    {
        i = i + 1;
    }
    if i == name_start || i >= n || v[i] != ':' {
        return None;
    }
    i = i + 1;
    let id_start = i;
    while i < n && '0' <= v[i] && v[i] <= '9'
        invariant
            id_start <= i <= n,
            n == v@.len(),
            digits_end(v@, id_start as int) == digits_end(v@, i as int),
        decreases n - i,
    {
        i = i + 1;
    }
    if i == id_start || i >= n || v[i] != '>' {
        return None;
    }
    let id = string_of_range(v, id_start, i);
    Some((i + 1, id))
}

/// How many characters the next grapheme takes at the start of `rest`.
pub open spec fn grapheme_step(rest: Seq<char>) -> int {
    let g = first_grapheme(rest);
    if 0 < g.len() <= rest.len() {
        g.len() as int
    } else {
        1
    }
}

/// The pending text as a segment list: empty when there is none.
pub open spec fn flush(buf: Seq<char>) -> Seq<EmojiSegView> {
    if buf.len() > 0 {
        seq![EmojiSegView::Text(buf)]
    } else {
        Seq::empty()
    }
}

/// The segments of `s[pos..]`, with `buf` the text gathered so far.
pub open spec fn split_spec(s: Seq<char>, pos: int, buf: Seq<char>) -> Seq<EmojiSegView>
    decreases s.len() - pos,
{
    if pos < 0 || pos >= s.len() {
        flush(buf)
    } else {
        match parse_custom_spec(s, pos) {
            Some((end, id)) => {
                proof {
                    lemma_parse_custom_end(s, pos);
                }
                flush(buf).push(EmojiSegView::Emoji(custom_emoji_url_spec(id))) + split_spec(
                    s,
                    end,
                    Seq::empty(),
                )
            },
            None => {
                let rest = s.skip(pos);
                let n = grapheme_step(rest);
                let g = rest.take(n);
                if is_emoji_grapheme_spec(g) {
                    flush(buf).push(EmojiSegView::Emoji(twemoji_url_spec(g))) + split_spec(
                        s,
                        pos + n,
                        Seq::empty(),
                    )
                } else {
                    split_spec(s, pos + n, buf + g)
                }
            },
        }
    }
}

pub proof fn lemma_parse_custom_end(s: Seq<char>, pos: int)
    ensures
        parse_custom_spec(s, pos) matches Some((end, id)) ==> pos < end <= s.len(),
{
    if 0 <= pos < s.len() && s[pos] == '<' {
        let i = if pos + 1 < s.len() && s[pos + 1] == 'a' {
            pos + 2
        } else {
            pos + 1
        };
        if i < s.len() && s[i] == ':' {
            lemma_scan_bounds(s, i + 1);
            let ne = name_end(s, i + 1);
            if ne < s.len() {
                lemma_scan_bounds(s, ne + 1);
            }
        }
    }
}

/// No text segment is empty, and a text segment is never followed by
/// another text segment.
pub open spec fn texts_merged(segs: Seq<EmojiSegView>) -> bool {
    forall|k: int|
        0 <= k < segs.len() && (#[trigger] segs[k] is Text) ==> segs[k]->Text_0.len() > 0 && (k + 1
            < segs.len() ==> segs[k + 1] is Emoji)
}

proof fn lemma_split_texts_merged(s: Seq<char>, pos: int, buf: Seq<char>)
    ensures
        texts_merged(split_spec(s, pos, buf)),
    decreases s.len() - pos,
{
    if 0 <= pos < s.len() {
        match parse_custom_spec(s, pos) {
            Some((end, id)) => {
                lemma_parse_custom_end(s, pos);
                lemma_split_texts_merged(s, end, Seq::empty());
                let h = flush(buf).push(EmojiSegView::Emoji(custom_emoji_url_spec(id)));
                let t = split_spec(s, end, Seq::empty());
                let r = h + t;
                assert(r == split_spec(s, pos, buf));
                assert forall|k: int| 0 <= k < r.len() && (#[trigger] r[k] is Text) implies r[k]->Text_0.len()
                    > 0 && (k + 1 < r.len() ==> r[k + 1] is Emoji) by {
                    if k < h.len() {
                        assert(k == 0 && h[0] == EmojiSegView::Text(buf));
                        assert(r[1] == h[1]);
                    } else {
                        assert(r[k] == t[k - h.len()]);
                        if k + 1 < r.len() {
                            assert(r[k + 1] == t[k + 1 - h.len()]);
                        }
                    }
                }
            },
            None => {
                let rest = s.skip(pos);
                let n = grapheme_step(rest);
                let g = rest.take(n);
                if is_emoji_grapheme_spec(g) {
                    lemma_split_texts_merged(s, pos + n, Seq::empty());
                    let h = flush(buf).push(EmojiSegView::Emoji(twemoji_url_spec(g)));
                    let t = split_spec(s, pos + n, Seq::empty());
                    let r = h + t;
                    assert(r == split_spec(s, pos, buf));
                    assert forall|k: int| 0 <= k < r.len() && (#[trigger] r[k] is Text) implies r[k]->Text_0.len()
                        > 0 && (k + 1 < r.len() ==> r[k + 1] is Emoji) by {
                        if k < h.len() {
                            assert(k == 0 && h[0] == EmojiSegView::Text(buf));
                            assert(r[1] == h[1]);
                        } else {
                            assert(r[k] == t[k - h.len()]);
                            if k + 1 < r.len() {
                                assert(r[k + 1] == t[k + 1 - h.len()]);
                            }
                        }
                    }
                } else {
                    lemma_split_texts_merged(s, pos + n, buf + g);
                }
            },
        }
    }
}

/// The segments of any string hold no empty text, and consecutive text is
/// always merged into one segment.
pub proof fn law_split_texts_merged(s: Seq<char>)
    ensures
        texts_merged(split_emojis_spec(s)),
{
    lemma_split_texts_merged(s, 0, Seq::empty());
}

/// The segments of a string.
pub open spec fn split_emojis_spec(s: Seq<char>) -> Seq<EmojiSegView> {
    split_spec(s, 0, Seq::empty())
}

/// Cuts a string into text and emoji segments (custom and Unicode);
/// consecutive text is merged into one segment.
pub fn split_emojis(input: &str) -> (r: Vec<EmojiSeg>)
    ensures
        seg_views(r@) == split_emojis_spec(input@),
{
    let v = chars_of(input);
    let mut segs: Vec<EmojiSeg> = Vec::new();
    let mut buf = String::new();
    let mut pos: usize = 0;
    while pos < v.len()
        invariant
            pos <= v@.len(),
            v@.len() == v.len(),
            v@ == input@,
            seg_views(segs@) + split_spec(v@, pos as int, buf@) == split_emojis_spec(input@),
        decreases v@.len() - pos,
    {
        let ghost before = seg_views(segs@);
        let ghost flushed = flush(buf@);
        if let Some((end, id)) = parse_custom(&v, pos) {
            proof {
                lemma_parse_custom_end(v@, pos as int);
            }
            if !buf.as_str().is_empty() {
                let b = buf;
                segs.push(EmojiSeg::Text(b));
                buf = String::new();
            }
            assert(seg_views(segs@) == before + flushed);
            let url = custom_emoji_url(id.as_str());
            segs.push(EmojiSeg::Emoji { url });
            assert(seg_views(segs@) == before + flushed.push(
                EmojiSegView::Emoji(custom_emoji_url_spec(id@)),
            ));
            pos = end;
            assert(buf@ == Seq::<char>::empty());
        } else {
            let rest = string_of_range(&v, pos, v.len());
            assert(rest@ == v@.skip(pos as int));
            let g = first_grapheme_of(rest.as_str());
            let n = g.as_str().unicode_len();
            assert(n == grapheme_step(v@.skip(pos as int)));
            let gv = chars_of(g.as_str());
            assert(gv@ == v@.skip(pos as int).take(n as int));
            if is_emoji_grapheme(&gv) {
                if !buf.as_str().is_empty() {
                    let b = buf;
                    segs.push(EmojiSeg::Text(b));
                    buf = String::new();
                }
                assert(seg_views(segs@) == before + flushed);
                let url = twemoji_url(g.as_str());
                segs.push(EmojiSeg::Emoji { url });
                assert(seg_views(segs@) == before + flushed.push(
                    EmojiSegView::Emoji(twemoji_url_spec(gv@)),
                ));
                assert(buf@ == Seq::<char>::empty());
            } else {
                push_range(&mut buf, &gv, 0, gv.len());
                assert(gv@.subrange(0, gv@.len() as int) == gv@);
            }
            pos = pos + n;
        }
    }
    if !buf.as_str().is_empty() {
        let ghost before = seg_views(segs@);
        segs.push(EmojiSeg::Text(buf));
        assert(seg_views(segs@) == before.push(EmojiSegView::Text(buf@)));
    }
    segs
}

} // verus!
