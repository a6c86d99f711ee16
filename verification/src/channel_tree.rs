//! The channel list as Discord draws it: visible root channels first, by
//! position and id, then each category holding at least one visible
//! channel, followed by its channels: text-like channels before voice ones,
//! then by position and id.
use vstd::prelude::*;

use crate::models::{Channel, ChannelView, Snowflake};
use crate::perms::{contains_id, ids_contain};
use crate::text::{chars_of, copy_opt, opt_view};

verus! {

/// The kind of a category channel.
pub const CATEGORY: u8 = 4;

#[derive(Debug, Clone)]
pub enum TreeRow {
    Category { id: Snowflake, name: String },
    Channel(Channel),
}

/// The abstract value of a row.
pub enum TreeRowView {
    Category { id: Seq<char>, name: Seq<char> },
    Channel(ChannelView),
}

impl View for TreeRow {
    type V = TreeRowView;

    open spec fn view(&self) -> TreeRowView {
        match self {
            TreeRow::Category { id, name } => TreeRowView::Category { id: id@, name: name@ },
            TreeRow::Channel(c) => TreeRowView::Channel(c@),
        }
    }
}

/// The views of a sequence of rows.
pub open spec fn row_views(rows: Seq<TreeRow>) -> Seq<TreeRowView> {
    rows.map_values(|r: TreeRow| r@)
}

/// 1 for voice and stage channels (listed after the others), 0 otherwise.
pub open spec fn type_group_spec(kind: u8) -> u8 {
    if kind == 2 || kind == 13 {
        1
    } else {
        0
    }
}

fn type_group(kind: u8) -> (r: u8)
    ensures
        r == type_group_spec(kind),
{
    match kind {
        2 | 13 => 1,
        _ => 0,
    }
}

/// Lexicographic order of strings by code point, which is the byte order
/// in which Rust compares `String`s.
pub open spec fn str_le(a: Seq<char>, b: Seq<char>) -> bool
    decreases a.len(),
{
    if a.len() == 0 {
        true
    } else if b.len() == 0 {
        false
    } else if (a[0] as u32) < (b[0] as u32) {
        true
    } else if a[0] == b[0] {
        str_le(a.skip(1), b.skip(1))
    } else {
        false
    }
}

/// A channel's position, 0 when it has none.
pub open spec fn pos_of(c: Channel) -> int {
    match c.position {
        Some(p) => p as int,
        None => 0,
    }
}

/// The order of channels: by type group (when `grouped`), then position, then id.
pub open spec fn key_le(a: Channel, b: Channel, grouped: bool) -> bool {
    let ga = if grouped {
        type_group_spec(a.kind)
    } else {
        0
    };
    let gb = if grouped {
        type_group_spec(b.kind)
    } else {
        0
    };
    ga < gb || (ga == gb && (pos_of(a) < pos_of(b) || (pos_of(a) == pos_of(b) && str_le(
        a.id@,
        b.id@,
    ))))
}

/// Inserts index `x` into `sorted` after every index whose channel does not come after it.
pub open spec fn insert_sorted(chs: Seq<Channel>, sorted: Seq<int>, x: int, grouped: bool) -> Seq<int>
    decreases sorted.len(),
{
    if sorted.len() == 0 {
        seq![x]
    } else if key_le(chs[sorted.last()], chs[x], grouped) {
        sorted.push(x)
    } else {
        insert_sorted(chs, sorted.drop_last(), x, grouped).push(sorted.last())
    }
}

/// The stable sort of the indices `s` by the channel order.
pub open spec fn sort_indices(chs: Seq<Channel>, s: Seq<int>, grouped: bool) -> Seq<int>
    decreases s.len(),
{
    if s.len() == 0 {
        Seq::empty()
    } else {
        insert_sorted(chs, sort_indices(chs, s.drop_last(), grouped), s.last(), grouped)
    }
}

/// The indices below `k` of the channels that satisfy `p`, in order.
pub open spec fn select(chs: Seq<Channel>, k: int, p: spec_fn(Channel) -> bool) -> Seq<int>
    decreases k,
{
    if k <= 0 {
        Seq::empty()
    } else if p(chs[k - 1]) {
        select(chs, k - 1, p).push(k - 1)
    } else {
        select(chs, k - 1, p)
    }
}

/// Visible channels without a parent that are not categories.
pub open spec fn is_root(visible: Seq<String>) -> spec_fn(Channel) -> bool {
    |c: Channel| c.kind != CATEGORY && c.parent_id is None && ids_contain(visible, c.id@)
}

pub open spec fn is_category() -> spec_fn(Channel) -> bool {
    |c: Channel| c.kind == CATEGORY
}

/// Visible channels, not categories, whose parent is `cat_id`.
pub open spec fn is_child_of(cat_id: Seq<char>, visible: Seq<String>) -> spec_fn(Channel) -> bool {
    |c: Channel|
        c.kind != CATEGORY && opt_view(c.parent_id) == Some(cat_id) && ids_contain(visible, c.id@)
}

/// The rows of the channels at the indices `s`.
pub open spec fn channel_rows(chs: Seq<Channel>, s: Seq<int>) -> Seq<TreeRowView> {
    s.map_values(|i: int| TreeRowView::Channel(chs[i]@))
}

/// The header row of a category.
pub open spec fn category_row(c: Channel) -> TreeRowView {
    TreeRowView::Category {
        id: c.id@,
        name: match opt_view(c.name) {
            Some(n) => n,
            None => Seq::empty(),
        },
    }
}

/// The rows of one category: nothing when it has no visible child, else its
/// header followed by its children in order.
pub open spec fn category_block(chs: Seq<Channel>, cat: int, visible: Seq<String>) -> Seq<TreeRowView> {
    let kids = sort_indices(
        chs,
        select(chs, chs.len() as int, is_child_of(chs[cat].id@, visible)),
        true,
    );
    if kids.len() == 0 {
        Seq::empty()
    } else {
        seq![category_row(chs[cat])] + channel_rows(chs, kids)
    }
}

/// The blocks of the categories at the indices `cats`, in order.
pub open spec fn category_blocks(chs: Seq<Channel>, cats: Seq<int>, visible: Seq<String>) -> Seq<
    TreeRowView,
>
    decreases cats.len(),
{
    if cats.len() == 0 {
        Seq::empty()
    } else {
        category_blocks(chs, cats.drop_last(), visible) + category_block(chs, cats.last(), visible)
    }
}

/// The channel tree: sorted roots, then the sorted categories' blocks.
pub open spec fn channel_tree_spec(chs: Seq<Channel>, visible: Seq<String>) -> Seq<TreeRowView> {
    channel_rows(chs, sort_indices(chs, select(chs, chs.len() as int, is_root(visible)), false))
        + category_blocks(
        chs,
        sort_indices(chs, select(chs, chs.len() as int, is_category()), false),
        visible,
    )
}

proof fn lemma_str_le_total(a: Seq<char>, b: Seq<char>)
    ensures
        str_le(a, b) || str_le(b, a),
    decreases a.len(),
{
    if a.len() > 0 && b.len() > 0 {
        if a[0] == b[0] {
            lemma_str_le_total(a.skip(1), b.skip(1));
        } else {
            if (a[0] as u32) == (b[0] as u32) {
                vstd::utf8::char_u32_cast(a[0], a[0] as u32);
                vstd::utf8::char_u32_cast(b[0], b[0] as u32);
            }
        }
    }
}

proof fn lemma_str_le_trans(a: Seq<char>, b: Seq<char>, c: Seq<char>)
    requires
        str_le(a, b),
        str_le(b, c),
    ensures
        str_le(a, c),
    decreases a.len(),
{
    if a.len() > 0 && b.len() > 0 && c.len() > 0 && a[0] == b[0] && b[0] == c[0] {
        lemma_str_le_trans(a.skip(1), b.skip(1), c.skip(1));
    }
}

proof fn lemma_key_le_total(x: Channel, y: Channel, g: bool)
    ensures
        key_le(x, y, g) || key_le(y, x, g),
{
    lemma_str_le_total(x.id@, y.id@);
}

proof fn lemma_key_le_trans(x: Channel, y: Channel, z: Channel, g: bool)
    requires
        key_le(x, y, g),
        key_le(y, z, g),
    ensures
        key_le(x, z, g),
{
    if str_le(x.id@, y.id@) && str_le(y.id@, z.id@) {
        lemma_str_le_trans(x.id@, y.id@, z.id@);
    }
}

/// The channels at the indices `s` are in order.
pub open spec fn sorted_by(chs: Seq<Channel>, s: Seq<int>, g: bool) -> bool {
    forall|a: int, b: int| 0 <= a < b < s.len() ==> key_le(chs[#[trigger] s[a]], chs[#[trigger] s[b]], g)
}

proof fn lemma_insert_sorted_sorted(chs: Seq<Channel>, sorted: Seq<int>, x: int, g: bool)
    requires
        sorted_by(chs, sorted, g),
    ensures
        sorted_by(chs, insert_sorted(chs, sorted, x, g), g),
    decreases sorted.len(),
{
    broadcast use vstd::seq_lib::lemma_seq_contains_after_push;

    let r = insert_sorted(chs, sorted, x, g);
    if sorted.len() == 0 {
    } else if key_le(chs[sorted.last()], chs[x], g) {
        assert forall|a: int, b: int| 0 <= a < b < r.len() implies key_le(
            chs[#[trigger] r[a]],
            chs[#[trigger] r[b]],
            g,
        ) by {
            if b == sorted.len() {
                if a < sorted.len() - 1 {
                    lemma_key_le_trans(chs[sorted[a]], chs[sorted.last()], chs[x], g);
                }
            } else {
                assert(r[a] == sorted[a] && r[b] == sorted[b]);
            }
        }
    } else {
        let init = sorted.drop_last();
        let last = sorted.last();
        let ins = insert_sorted(chs, init, x, g);
        lemma_insert_sorted_sorted(chs, init, x, g);
        lemma_insert_sorted_contains(chs, init, x, g);
        lemma_key_le_total(chs[last], chs[x], g);
        assert(r == ins.push(last));
        assert forall|a: int, b: int| 0 <= a < b < r.len() implies key_le(
            chs[#[trigger] r[a]],
            chs[#[trigger] r[b]],
            g,
        ) by {
            if b == ins.len() {
                assert(ins.contains(ins[a]));
                if ins[a] != x {
                    assert(init.contains(ins[a]));
                    let m = choose|m: int| 0 <= m < init.len() && init[m] == ins[a];
                    assert(sorted[m] == init[m]);
                    assert(sorted[sorted.len() - 1] == last);
                }
            } else {
                assert(r[a] == ins[a] && r[b] == ins[b]);
            }
        }
    }
}

proof fn lemma_sort_sorted(chs: Seq<Channel>, s: Seq<int>, g: bool)
    ensures
        sorted_by(chs, sort_indices(chs, s, g), g),
    decreases s.len(),
{
    if s.len() > 0 {
        lemma_sort_sorted(chs, s.drop_last(), g);
        lemma_insert_sorted_sorted(chs, sort_indices(chs, s.drop_last(), g), s.last(), g);
    }
}

/// Row `r` shows channel `i`: a visible channel that is not a category.
pub open spec fn shows_visible(chs: Seq<Channel>, visible: Seq<String>, r: TreeRowView, i: int) -> bool {
    &&& 0 <= i < chs.len()
    &&& r == TreeRowView::Channel(chs[i]@)
    &&& chs[i].kind != CATEGORY
    &&& ids_contain(visible, chs[i].id@)
}

/// Row `r` shows some visible channel that is not a category.
pub open spec fn is_visible_channel_row(chs: Seq<Channel>, visible: Seq<String>, r: TreeRowView) -> bool {
    exists|i: int| #[trigger] shows_visible(chs, visible, r, i)
}

/// Row `k` of `rows` is the header of category `c`, and the next row is a
/// channel of that category.
pub open spec fn header_of(chs: Seq<Channel>, rows: Seq<TreeRowView>, k: int, c: int) -> bool {
    &&& 0 <= c < chs.len()
    &&& chs[c].kind == CATEGORY
    &&& rows[k] == category_row(chs[c])
    &&& k + 1 < rows.len()
    &&& rows[k + 1] matches TreeRowView::Channel(cv) && cv.parent_id == Some(chs[c].id@)
}

/// Row `k` of `rows` is the header of some category, followed by one of its channels.
pub open spec fn is_header_row(chs: Seq<Channel>, rows: Seq<TreeRowView>, k: int) -> bool {
    exists|c: int| #[trigger] header_of(chs, rows, k, c)
}

/// Rows made of category blocks: every channel row is a visible channel
/// with a parent, every header is followed by one of its channels.
pub open spec fn blocks_ok(chs: Seq<Channel>, visible: Seq<String>, rows: Seq<TreeRowView>) -> bool {
    &&& forall|k: int|
        0 <= k < rows.len() && (#[trigger] rows[k] is Channel) ==> is_visible_channel_row(chs, visible, rows[k])
            && rows[k]->Channel_0.parent_id is Some
    &&& forall|k: int| 0 <= k < rows.len() && (#[trigger] rows[k] is Category) ==> is_header_row(chs, rows, k)
}

/// No index occurs twice.
pub open spec fn no_dups(s: Seq<int>) -> bool {
    forall|a: int, b: int| 0 <= a < b < s.len() ==> #[trigger] s[a] != #[trigger] s[b]
}

proof fn lemma_insert_sorted_no_dups(chs: Seq<Channel>, sorted: Seq<int>, x: int, g: bool)
    requires
        no_dups(sorted),
        !sorted.contains(x),
    ensures
        no_dups(insert_sorted(chs, sorted, x, g)),
    decreases sorted.len(),
{
    broadcast use vstd::seq_lib::lemma_seq_contains_after_push;

    let r = insert_sorted(chs, sorted, x, g);
    if sorted.len() == 0 {
    } else if key_le(chs[sorted.last()], chs[x], g) {
        assert forall|a: int, b: int| 0 <= a < b < r.len() implies #[trigger] r[a] != #[trigger] r[b] by {
            if b == sorted.len() {
                assert(sorted.contains(sorted[a]));
            } else {
                assert(r[a] == sorted[a] && r[b] == sorted[b]);
            }
        }
    } else {
        let init = sorted.drop_last();
        let last = sorted.last();
        assert(sorted == init.push(last));
        assert(!init.contains(x));
        lemma_insert_sorted_no_dups(chs, init, x, g);
        lemma_insert_sorted_contains(chs, init, x, g);
        let ins = insert_sorted(chs, init, x, g);
        assert(!init.contains(last)) by {
            if init.contains(last) {
                let m = choose|m: int| 0 <= m < init.len() && init[m] == last;
                assert(sorted[m] == sorted[sorted.len() - 1]);
            }
        }
        assert(last != x);
        assert(!ins.contains(last));
        assert(r == ins.push(last));
        assert forall|a: int, b: int| 0 <= a < b < r.len() implies #[trigger] r[a] != #[trigger] r[b] by {
            if b == ins.len() {
                assert(ins.contains(ins[a]));
            } else {
                assert(r[a] == ins[a] && r[b] == ins[b]);
            }
        }
    }
}

proof fn lemma_sort_no_dups(chs: Seq<Channel>, s: Seq<int>, g: bool)
    requires
        no_dups(s),
    ensures
        no_dups(sort_indices(chs, s, g)),
    decreases s.len(),
{
    if s.len() > 0 {
        let init = s.drop_last();
        assert(no_dups(init)) by {
            assert forall|a: int, b: int| 0 <= a < b < init.len() implies #[trigger] init[a]
                != #[trigger] init[b] by {
                assert(init[a] == s[a] && init[b] == s[b]);
            }
        }
        lemma_sort_no_dups(chs, init, g);
        lemma_sort_contains(chs, init, g);
        assert(!init.contains(s.last())) by {
            if init.contains(s.last()) {
                let m = choose|m: int| 0 <= m < init.len() && init[m] == s.last();
                assert(s[m] == s[s.len() - 1]);
            }
        }
        lemma_insert_sorted_no_dups(chs, sort_indices(chs, init, g), s.last(), g);
    }
}

proof fn lemma_select_props(chs: Seq<Channel>, k: int, p: spec_fn(Channel) -> bool)
    requires
        k <= chs.len(),
    ensures
        forall|j: int|
            0 <= j < select(chs, k, p).len() ==> 0 <= #[trigger] select(chs, k, p)[j] < k && p(
                chs[select(chs, k, p)[j]],
            ),
        forall|i: int| 0 <= i < k && p(chs[i]) ==> #[trigger] select(chs, k, p).contains(i),
        no_dups(select(chs, k, p)),
    decreases k,
{
    broadcast use vstd::seq_lib::lemma_seq_contains_after_push;

    if k > 0 {
        lemma_select_props(chs, k - 1, p);
        let prev = select(chs, k - 1, p);
        if p(chs[k - 1]) {
            let cur = select(chs, k, p);
            assert forall|j: int| 0 <= j < cur.len() implies 0 <= #[trigger] cur[j] < k && p(
                chs[cur[j]],
            ) by {
                if j < prev.len() {
                    assert(cur[j] == prev[j]);
                }
            }
            assert forall|a: int, b: int| 0 <= a < b < cur.len() implies #[trigger] cur[a]
                != #[trigger] cur[b] by {
                assert(cur[a] == prev[a]);
                if b < prev.len() {
                    assert(cur[b] == prev[b]);
                }
            }
        }
    }
}

proof fn lemma_insert_sorted_contains(chs: Seq<Channel>, sorted: Seq<int>, x: int, g: bool)
    ensures
        insert_sorted(chs, sorted, x, g).len() == sorted.len() + 1,
        forall|y: int| #[trigger]
            insert_sorted(chs, sorted, x, g).contains(y) <==> (y == x || sorted.contains(y)),
    decreases sorted.len(),
{
    broadcast use vstd::seq_lib::lemma_seq_contains_after_push;

    if sorted.len() == 0 {
        assert(seq![x] == Seq::<int>::empty().push(x));
    } else if !key_le(chs[sorted.last()], chs[x], g) {
        lemma_insert_sorted_contains(chs, sorted.drop_last(), x, g);
        assert(sorted == sorted.drop_last().push(sorted.last()));
    }
}

proof fn lemma_sort_contains(chs: Seq<Channel>, s: Seq<int>, g: bool)
    ensures
        sort_indices(chs, s, g).len() == s.len(),
        forall|y: int| #[trigger] sort_indices(chs, s, g).contains(y) <==> s.contains(y),
    decreases s.len(),
{
    broadcast use vstd::seq_lib::lemma_seq_contains_after_push;

    if s.len() > 0 {
        lemma_sort_contains(chs, s.drop_last(), g);
        lemma_insert_sorted_contains(chs, sort_indices(chs, s.drop_last(), g), s.last(), g);
        assert(s == s.drop_last().push(s.last()));
    }
}

/// The sorted selection holds exactly the indices below `chs.len()` whose channel satisfies `p`.
proof fn lemma_sorted_selection(chs: Seq<Channel>, p: spec_fn(Channel) -> bool, g: bool)
    ensures
        forall|j: int|
            0 <= j < sort_indices(chs, select(chs, chs.len() as int, p), g).len() ==> 0
                <= #[trigger] sort_indices(chs, select(chs, chs.len() as int, p), g)[j] < chs.len()
                && p(chs[sort_indices(chs, select(chs, chs.len() as int, p), g)[j]]),
        forall|i: int|
            0 <= i < chs.len() && p(chs[i]) ==> #[trigger] sort_indices(
                chs,
                select(chs, chs.len() as int, p),
                g,
            ).contains(i),
{
    let sel = select(chs, chs.len() as int, p);
    let srt = sort_indices(chs, sel, g);
    lemma_select_props(chs, chs.len() as int, p);
    lemma_sort_contains(chs, sel, g);
    assert forall|j: int| 0 <= j < srt.len() implies 0 <= #[trigger] srt[j] < chs.len() && p(
        chs[srt[j]],
    ) by {
        assert(srt.contains(srt[j]));
        assert(sel.contains(srt[j]));
        let m = choose|m: int| 0 <= m < sel.len() && sel[m] == srt[j];
        assert(sel[m] == srt[j]);
    }
    assert forall|i: int| 0 <= i < chs.len() && p(chs[i]) implies #[trigger] srt.contains(i) by {
        assert(sel.contains(i));
    }
}

proof fn lemma_blocks_concat(chs: Seq<Channel>, visible: Seq<String>, a: Seq<TreeRowView>, b: Seq<TreeRowView>)
    requires
        blocks_ok(chs, visible, a),
        blocks_ok(chs, visible, b),
    ensures
        blocks_ok(chs, visible, a + b),
{
    let r = a + b;
    assert forall|k: int| 0 <= k < r.len() && (#[trigger] r[k] is Channel) implies is_visible_channel_row(
        chs,
        visible,
        r[k],
    ) && r[k]->Channel_0.parent_id is Some by {
        if k < a.len() {
            assert(r[k] == a[k]);
        } else {
            assert(r[k] == b[k - a.len()]);
        }
    }
    assert forall|k: int| 0 <= k < r.len() && (#[trigger] r[k] is Category) implies is_header_row(
        chs,
        r,
        k,
    ) by {
        if k < a.len() {
            assert(r[k] == a[k]);
            assert(is_header_row(chs, a, k));
            let c = choose|c: int| #[trigger] header_of(chs, a, k, c);
            assert(r[k + 1] == a[k + 1]);
            assert(header_of(chs, r, k, c));
        } else {
            let kb = k - a.len();
            assert(r[k] == b[kb]);
            assert(is_header_row(chs, b, kb));
            let c = choose|c: int| #[trigger] header_of(chs, b, kb, c);
            assert(r[k + 1] == b[kb + 1]);
            assert(header_of(chs, r, k, c));
        }
    }
}

proof fn lemma_block_ok(chs: Seq<Channel>, cat: int, visible: Seq<String>)
    requires
        0 <= cat < chs.len(),
        chs[cat].kind == CATEGORY,
    ensures
        blocks_ok(chs, visible, category_block(chs, cat, visible)),
{
    let p = is_child_of(chs[cat].id@, visible);
    let kids = sort_indices(chs, select(chs, chs.len() as int, p), true);
    lemma_sorted_selection(chs, p, true);
    let rows = category_block(chs, cat, visible);
    if kids.len() > 0 {
        let cr = channel_rows(chs, kids);
        assert(rows == seq![category_row(chs[cat])] + cr);
        assert forall|k: int| 0 <= k < rows.len() && (#[trigger] rows[k] is Channel) implies is_visible_channel_row(
            chs,
            visible,
            rows[k],
        ) && rows[k]->Channel_0.parent_id is Some by {
            assert(k >= 1);
            assert(rows[k] == cr[k - 1]);
            let i = kids[k - 1];
            assert(p(chs[i]));
            assert(shows_visible(chs, visible, rows[k], i));
        }
        assert forall|k: int| 0 <= k < rows.len() && (#[trigger] rows[k] is Category) implies is_header_row(
            chs,
            rows,
            k,
        ) by {
            assert(k == 0);
            let i = kids[0];
            assert(p(chs[i]));
            assert(rows[1] == cr[0]);
            assert(header_of(chs, rows, 0, cat));
        }
    }
}

proof fn lemma_blocks_ok(chs: Seq<Channel>, cats: Seq<int>, visible: Seq<String>)
    requires
        forall|j: int| 0 <= j < cats.len() ==> 0 <= #[trigger] cats[j] < chs.len() && chs[cats[j]].kind == CATEGORY,
    ensures
        blocks_ok(chs, visible, category_blocks(chs, cats, visible)),
    decreases cats.len(),
{
    if cats.len() > 0 {
        lemma_blocks_ok(chs, cats.drop_last(), visible);
        assert(cats.last() == cats[cats.len() - 1]);
        lemma_block_ok(chs, cats.last(), visible);
        lemma_blocks_concat(
            chs,
            visible,
            category_blocks(chs, cats.drop_last(), visible),
            category_block(chs, cats.last(), visible),
        );
    }
}

/// The shape of the channel tree: every channel row shows a visible channel
/// that is not a category; every category header is followed by one of its
/// own channels (no empty category is shown); and channels without a
/// category all come before the first category header.
pub proof fn law_channel_tree_shape(chs: Seq<Channel>, visible: Seq<String>)
    ensures
        forall|k: int|
            0 <= k < channel_tree_spec(chs, visible).len() && (#[trigger] channel_tree_spec(
                chs,
                visible,
            )[k] is Channel) ==> is_visible_channel_row(chs, visible, channel_tree_spec(chs, visible)[k]),
        forall|k: int|
            0 <= k < channel_tree_spec(chs, visible).len() && (#[trigger] channel_tree_spec(
                chs,
                visible,
            )[k] is Category) ==> is_header_row(chs, channel_tree_spec(chs, visible), k),
        forall|a: int, b: int|
            0 <= a < b < channel_tree_spec(chs, visible).len() && (#[trigger] channel_tree_spec(
                chs,
                visible,
            )[a] is Category) ==> !(#[trigger] channel_tree_spec(chs, visible)[b] matches TreeRowView::Channel(cv)
                && cv.parent_id is None),
{
    let tree = channel_tree_spec(chs, visible);
    let roots = sort_indices(chs, select(chs, chs.len() as int, is_root(visible)), false);
    let cats = sort_indices(chs, select(chs, chs.len() as int, is_category()), false);
    let rr = channel_rows(chs, roots);
    let bb = category_blocks(chs, cats, visible);
    lemma_sorted_selection(chs, is_root(visible), false);
    lemma_sorted_selection(chs, is_category(), false);
    lemma_blocks_ok(chs, cats, visible);
    assert(tree == rr + bb);
    assert forall|k: int| 0 <= k < tree.len() && (#[trigger] tree[k] is Channel) implies is_visible_channel_row(
        chs,
        visible,
        tree[k],
    ) by {
        if k < rr.len() {
            assert(tree[k] == rr[k]);
            let i = roots[k];
            assert(is_root(visible)(chs[i]));
            assert(shows_visible(chs, visible, tree[k], i));
        } else {
            assert(tree[k] == bb[k - rr.len()]);
        }
    }
    assert forall|k: int| 0 <= k < tree.len() && (#[trigger] tree[k] is Category) implies is_header_row(
        chs,
        tree,
        k,
    ) by {
        assert(k >= rr.len());
        let kb = k - rr.len();
        assert(tree[k] == bb[kb]);
        assert(is_header_row(chs, bb, kb));
        let c = choose|c: int| #[trigger] header_of(chs, bb, kb, c);
        assert(tree[k + 1] == bb[kb + 1]);
        assert(header_of(chs, tree, k, c));
    }
    assert forall|a: int, b: int|
        0 <= a < b < tree.len() && (#[trigger] tree[a] is Category) implies !(
        #[trigger] tree[b] matches TreeRowView::Channel(cv) && cv.parent_id is None) by {
        assert(a >= rr.len());
        assert(tree[b] == bb[b - rr.len()]);
    }
}

/// The order of channels (by type group when `grouped`, then position,
/// then id), read on their abstract values.
pub open spec fn view_key_le(x: ChannelView, y: ChannelView, grouped: bool) -> bool {
    let gx = if grouped {
        type_group_spec(x.kind)
    } else {
        0
    };
    let gy = if grouped {
        type_group_spec(y.kind)
    } else {
        0
    };
    let px: int = match x.position {
        Some(p) => p as int,
        None => 0,
    };
    let py: int = match y.position {
        Some(p) => p as int,
        None => 0,
    };
    gx < gy || (gx == gy && (px < py || (px == py && str_le(x.id, y.id))))
}

proof fn lemma_key_view(a: Channel, b: Channel, g: bool)
    ensures
        key_le(a, b, g) == view_key_le(a@, b@, g),
{
}

/// No two categories share an id.
pub open spec fn category_ids_distinct(chs: Seq<Channel>) -> bool {
    forall|i: int, j: int|
        #![trigger chs[i], chs[j]]
        0 <= i < chs.len() && 0 <= j < chs.len() && i != j && chs[i].kind == CATEGORY && chs[j].kind
            == CATEGORY ==> chs[i].id@ != chs[j].id@
}

/// Channel rows under the same parent, or both without one, are in order:
/// under a category by type group, position and id; without one by
/// position and id.
pub open spec fn siblings_ordered(rows: Seq<TreeRowView>) -> bool {
    forall|a: int, b: int|
        #![trigger rows[a], rows[b]]
        0 <= a < b < rows.len() && rows[a] is Channel && rows[b] is Channel && rows[a]->Channel_0.parent_id
            == rows[b]->Channel_0.parent_id ==> view_key_le(
            rows[a]->Channel_0,
            rows[b]->Channel_0,
            rows[a]->Channel_0.parent_id is Some,
        )
}

/// Every category with id `x` comes, by position then id, no later than
/// every category with id `y`.
pub open spec fn cats_in_order(chs: Seq<Channel>, x: Seq<char>, y: Seq<char>) -> bool {
    forall|c1: int, c2: int|
        0 <= c1 < chs.len() && 0 <= c2 < chs.len() && chs[c1].kind == CATEGORY && chs[c2].kind
            == CATEGORY && chs[c1].id@ == x && chs[c2].id@ == y ==> #[trigger] key_le(
            chs[c1],
            chs[c2],
            false,
        )
}

/// Category headers are in order.
pub open spec fn headers_ordered(chs: Seq<Channel>, rows: Seq<TreeRowView>) -> bool {
    forall|a: int, b: int|
        #![trigger rows[a], rows[b]]
        0 <= a < b < rows.len() && rows[a] is Category && rows[b] is Category ==> cats_in_order(
            chs,
            rows[a]->id,
            rows[b]->id,
        )
}

/// `pid` is the id of one of the categories at the indices `cats`.
pub open spec fn parent_among(chs: Seq<Channel>, cats: Seq<int>, pid: Option<Seq<char>>) -> bool {
    exists|m: int| 0 <= m < cats.len() && pid == Some(chs[#[trigger] cats[m]].id@)
}

/// `id` is the id of one of the categories at the indices `cats`.
pub open spec fn header_among(chs: Seq<Channel>, cats: Seq<int>, id: Seq<char>) -> bool {
    exists|m: int| 0 <= m < cats.len() && id == chs[#[trigger] cats[m]].id@
}

/// The rows belong to the categories at the indices `cats`.
pub open spec fn blocks_among(chs: Seq<Channel>, cats: Seq<int>, rows: Seq<TreeRowView>) -> bool {
    &&& forall|k: int|
        0 <= k < rows.len() && (#[trigger] rows[k] is Channel) ==> parent_among(
            chs,
            cats,
            rows[k]->Channel_0.parent_id,
        )
    &&& forall|k: int|
        0 <= k < rows.len() && (#[trigger] rows[k] is Category) ==> header_among(chs, cats, rows[k]->id)
}

proof fn lemma_blocks_ordered(chs: Seq<Channel>, cats: Seq<int>, visible: Seq<String>)
    requires
        forall|j: int| 0 <= j < cats.len() ==> 0 <= #[trigger] cats[j] < chs.len() && chs[cats[j]].kind == CATEGORY,
        no_dups(cats),
        sorted_by(chs, cats, false),
        category_ids_distinct(chs),
    ensures
        siblings_ordered(category_blocks(chs, cats, visible)),
        headers_ordered(chs, category_blocks(chs, cats, visible)),
        blocks_among(chs, cats, category_blocks(chs, cats, visible)),
    decreases cats.len(),
{
    if cats.len() > 0 {
        let n = cats.len();
        let init = cats.drop_last();
        let last = cats.last();
        assert(last == cats[n - 1]);
        assert forall|j: int| 0 <= j < init.len() implies 0 <= #[trigger] init[j] < chs.len()
            && chs[init[j]].kind == CATEGORY by {
            assert(init[j] == cats[j]);
        }
        assert forall|a: int, b: int| 0 <= a < b < init.len() implies #[trigger] init[a]
            != #[trigger] init[b] by {
            assert(init[a] == cats[a] && init[b] == cats[b]);
        }
        assert forall|a: int, b: int| 0 <= a < b < init.len() implies key_le(
            chs[#[trigger] init[a]],
            chs[#[trigger] init[b]],
            false,
        ) by {
            assert(init[a] == cats[a] && init[b] == cats[b]);
        }
        lemma_blocks_ordered(chs, init, visible);
        let prev = category_blocks(chs, init, visible);
        let blk = category_block(chs, last, visible);
        let r = prev + blk;
        assert(r == category_blocks(chs, cats, visible));
        let plen = prev.len();
        let p = is_child_of(chs[last].id@, visible);
        let kids = sort_indices(chs, select(chs, chs.len() as int, p), true);
        lemma_sorted_selection(chs, p, true);
        lemma_sort_sorted(chs, select(chs, chs.len() as int, p), true);
        let cr = channel_rows(chs, kids);
        if kids.len() > 0 {
            assert(blk == seq![category_row(chs[last])] + cr);
        } else {
            assert(blk.len() == 0);
        }
        // every row of the last block belongs to category `last`
        assert forall|k: int| 0 <= k < blk.len() && (#[trigger] blk[k] is Channel) implies blk[k]->Channel_0.parent_id
            == Some(chs[last].id@) && blk[k] == TreeRowView::Channel(chs[kids[k - 1]]@) && k >= 1 by {
            assert(blk[k] == cr[k - 1]);
            assert(p(chs[kids[k - 1]]));
        }
        assert forall|k: int| 0 <= k < blk.len() && (#[trigger] blk[k] is Category) implies k == 0
            && blk[k]->id == chs[last].id@ by {
            if k > 0 {
                assert(blk[k] == cr[k - 1]);
            }
        }
        // the categories of `init` are not `last`, so their ids differ from its id
        assert forall|m: int| 0 <= m < init.len() implies chs[#[trigger] init[m]].id@ != chs[last].id@ by {
            assert(init[m] == cats[m]);
            assert(cats[m] != cats[n - 1]);
            assert(chs[cats[m]].kind == CATEGORY && chs[cats[n - 1]].kind == CATEGORY);
        }
        assert forall|a: int, b: int|
            #![trigger r[a], r[b]]
            0 <= a < b < r.len() && r[a] is Channel && r[b] is Channel && r[a]->Channel_0.parent_id
                == r[b]->Channel_0.parent_id implies view_key_le(
                r[a]->Channel_0,
                r[b]->Channel_0,
                r[a]->Channel_0.parent_id is Some,
            ) by {
            if b < plen {
                assert(r[a] == prev[a] && r[b] == prev[b]);
            } else if a >= plen {
                assert(r[a] == blk[a - plen] && r[b] == blk[b - plen]);
                let ka = kids[a - plen - 1];
                let kb = kids[b - plen - 1];
                assert(key_le(chs[ka], chs[kb], true));
                lemma_key_view(chs[ka], chs[kb], true);
            } else {
                assert(r[a] == prev[a] && r[b] == blk[b - plen]);
                assert(parent_among(chs, init, prev[a]->Channel_0.parent_id));
                let m = choose|m: int|
                    0 <= m < init.len() && prev[a]->Channel_0.parent_id == Some(
                        chs[#[trigger] init[m]].id@,
                    );
                assert(chs[init[m]].id@ != chs[last].id@);
            }
        }
        assert forall|a: int, b: int|
            #![trigger r[a], r[b]]
            0 <= a < b < r.len() && r[a] is Category && r[b] is Category implies cats_in_order(
                chs,
                r[a]->id,
                r[b]->id,
            ) by {
            if b < plen {
                assert(r[a] == prev[a] && r[b] == prev[b]);
            } else if a >= plen {
                assert(r[a] == blk[a - plen] && r[b] == blk[b - plen]);
            } else {
                assert(r[a] == prev[a] && r[b] == blk[b - plen]);
                assert(header_among(chs, init, prev[a]->id));
                let m = choose|m: int| 0 <= m < init.len() && prev[a]->id == chs[#[trigger] init[m]].id@;
                assert forall|c1: int, c2: int|
                    0 <= c1 < chs.len() && 0 <= c2 < chs.len() && chs[c1].kind == CATEGORY
                        && chs[c2].kind == CATEGORY && chs[c1].id@ == r[a]->id && chs[c2].id@
                        == r[b]->id implies #[trigger] key_le(chs[c1], chs[c2], false) by {
                    assert(init[m] == cats[m]);
                    if c1 != cats[m] {
                        assert(chs[c1].id@ != chs[cats[m]].id@);
                    }
                    if c2 != cats[n - 1] {
                        assert(chs[c2].id@ != chs[cats[n - 1]].id@);
                    }
                    assert(key_le(chs[cats[m]], chs[cats[n - 1]], false));
                }
            }
        }
        assert forall|k: int| 0 <= k < r.len() && (#[trigger] r[k] is Channel) implies parent_among(
            chs,
            cats,
            r[k]->Channel_0.parent_id,
        ) by {
            if k < plen {
                assert(r[k] == prev[k]);
                assert(parent_among(chs, init, prev[k]->Channel_0.parent_id));
                let m = choose|m: int|
                    0 <= m < init.len() && prev[k]->Channel_0.parent_id == Some(
                        chs[#[trigger] init[m]].id@,
                    );
                assert(init[m] == cats[m]);
            } else {
                assert(r[k] == blk[k - plen]);
                assert(cats[n - 1] == last);
            }
        }
        assert forall|k: int| 0 <= k < r.len() && (#[trigger] r[k] is Category) implies header_among(
            chs,
            cats,
            r[k]->id,
        ) by {
            if k < plen {
                assert(r[k] == prev[k]);
                assert(header_among(chs, init, prev[k]->id));
                let m = choose|m: int| 0 <= m < init.len() && prev[k]->id == chs[#[trigger] init[m]].id@;
                assert(init[m] == cats[m]);
            } else {
                assert(r[k] == blk[k - plen]);
                assert(cats[n - 1] == last);
            }
        }
    }
}

/// The order of the channel tree, given that no two categories share an
/// id: channels under the same category are listed text-like before voice,
/// then by position, then by id; channels without a category, and category
/// headers, by position, then by id.
pub proof fn law_channel_tree_order(chs: Seq<Channel>, visible: Seq<String>)
    requires
        category_ids_distinct(chs),
    ensures
        siblings_ordered(channel_tree_spec(chs, visible)),
        headers_ordered(chs, channel_tree_spec(chs, visible)),
{
    let tree = channel_tree_spec(chs, visible);
    let rsel = select(chs, chs.len() as int, is_root(visible));
    let csel = select(chs, chs.len() as int, is_category());
    let roots = sort_indices(chs, rsel, false);
    let cats = sort_indices(chs, csel, false);
    let rr = channel_rows(chs, roots);
    let bb = category_blocks(chs, cats, visible);
    lemma_sorted_selection(chs, is_root(visible), false);
    lemma_sorted_selection(chs, is_category(), false);
    lemma_sort_sorted(chs, rsel, false);
    lemma_sort_sorted(chs, csel, false);
    lemma_select_props(chs, chs.len() as int, is_category());
    lemma_sort_no_dups(chs, csel, false);
    lemma_blocks_ordered(chs, cats, visible);
    assert(tree == rr + bb);
    let rl = rr.len();
    assert forall|a: int, b: int|
        #![trigger tree[a], tree[b]]
        0 <= a < b < tree.len() && tree[a] is Channel && tree[b] is Channel && tree[a]->Channel_0.parent_id
            == tree[b]->Channel_0.parent_id implies view_key_le(
            tree[a]->Channel_0,
            tree[b]->Channel_0,
            tree[a]->Channel_0.parent_id is Some,
        ) by {
        if b < rl {
            assert(tree[a] == rr[a] && tree[b] == rr[b]);
            assert(key_le(chs[roots[a]], chs[roots[b]], false));
            lemma_key_view(chs[roots[a]], chs[roots[b]], false);
        } else if a >= rl {
            assert(tree[a] == bb[a - rl] && tree[b] == bb[b - rl]);
        } else {
            assert(tree[a] == rr[a] && tree[b] == bb[b - rl]);
            assert(is_root(visible)(chs[roots[a]]));
            assert(parent_among(chs, cats, bb[b - rl]->Channel_0.parent_id));
        }
    }
    assert forall|a: int, b: int|
        #![trigger tree[a], tree[b]]
        0 <= a < b < tree.len() && tree[a] is Category && tree[b] is Category implies cats_in_order(
            chs,
            tree[a]->id,
            tree[b]->id,
        ) by {
        if a < rl {
            assert(tree[a] == rr[a]);
        }
        assert(tree[a] == bb[a - rl] && tree[b] == bb[b - rl]);
    }
}

proof fn lemma_str_le_antisym(a: Seq<char>, b: Seq<char>)
    requires
        str_le(a, b),
        str_le(b, a),
    ensures
        a == b,
    decreases a.len(),
{
    if a.len() > 0 && b.len() > 0 {
        if a[0] == b[0] {
            lemma_str_le_antisym(a.skip(1), b.skip(1));
            assert(a =~= seq![a[0]] + a.skip(1));
            assert(b =~= seq![b[0]] + b.skip(1));
        } else if (a[0] as u32) == (b[0] as u32) {
            vstd::utf8::char_u32_cast(a[0], a[0] as u32);
            vstd::utf8::char_u32_cast(b[0], b[0] as u32);
        }
    } else {
        assert(a.len() == 0 && b.len() == 0);
        assert(a =~= b);
    }
}

/// The views of the channels at the indices `s`.
pub open spec fn views_at(chs: Seq<Channel>, s: Seq<int>) -> Seq<ChannelView> {
    s.map_values(|i: int| chs[i]@)
}

/// No two channels share an id.
pub open spec fn ids_distinct(chs: Seq<Channel>) -> bool {
    forall|i: int, j: int| 0 <= i < j < chs.len() ==> (#[trigger] chs[i]).id@ != (#[trigger] chs[j]).id@
}

/// Some channel of `chs` has the abstract value `x`.
pub open spec fn has_view(chs: Seq<Channel>, x: ChannelView) -> bool {
    exists|i: int| 0 <= i < chs.len() && (#[trigger] chs[i])@ == x
}

/// Both lists hold the same channels, read by their abstract values.
pub open spec fn same_channels(a: Seq<Channel>, b: Seq<Channel>) -> bool {
    forall|x: ChannelView| #[trigger] has_view(a, x) <==> has_view(b, x)
}

/// Channel values in strictly increasing order.
pub open spec fn views_sorted(vs: Seq<ChannelView>, g: bool) -> bool {
    forall|a: int, b: int|
        #![trigger vs[a], vs[b]]
        0 <= a < b < vs.len() ==> view_key_le(vs[a], vs[b], g) && vs[a].id != vs[b].id
}

proof fn lemma_view_key_antisym(x: ChannelView, y: ChannelView, g: bool)
    requires
        view_key_le(x, y, g),
        view_key_le(y, x, g),
    ensures
        x.id == y.id,
{
    lemma_str_le_antisym(x.id, y.id);
}

/// Two strictly sorted sequences with the same elements, in which equal ids
/// mean equal values, are equal.
proof fn lemma_sorted_unique(a: Seq<ChannelView>, b: Seq<ChannelView>, g: bool)
    requires
        views_sorted(a, g),
        views_sorted(b, g),
        forall|x: ChannelView| #[trigger] a.contains(x) <==> b.contains(x),
        forall|i: int, j: int|
            #![trigger a[i], b[j]]
            0 <= i < a.len() && 0 <= j < b.len() && a[i].id == b[j].id ==> a[i] == b[j],
    ensures
        a == b,
    decreases a.len(),
{
    if a.len() == 0 {
        if b.len() > 0 {
            assert(b.contains(b[0]));
            assert(a.contains(b[0]));
        }
        assert(a =~= b);
    } else {
        assert(a.contains(a[0]));
        assert(b.contains(a[0]));
        assert(b.len() > 0);
        assert(b.contains(b[0]));
        assert(a.contains(b[0]));
        let j = choose|j: int| 0 <= j < b.len() && b[j] == a[0];
        let i = choose|i: int| 0 <= i < a.len() && a[i] == b[0];
        if i > 0 && j > 0 {
            assert(view_key_le(a[0], a[i], g));
            assert(view_key_le(b[0], b[j], g));
            lemma_view_key_antisym(a[0], b[0], g);
            assert(a[0] == b[0]);
        } else if i == 0 {
            assert(a[0] == b[0]);
        } else {
            assert(b[0] == a[0]);
        }
        let ta = a.skip(1);
        let tb = b.skip(1);
        assert forall|x: ChannelView| #[trigger] ta.contains(x) <==> tb.contains(x) by {
            if ta.contains(x) {
                let k = choose|k: int| 0 <= k < ta.len() && ta[k] == x;
                assert(a[k + 1] == x);
                assert(a[0].id != a[k + 1].id);
                assert(a.contains(x));
                assert(b.contains(x));
                let m = choose|m: int| 0 <= m < b.len() && b[m] == x;
                assert(m != 0);
                assert(tb[m - 1] == x);
            }
            if tb.contains(x) {
                let k = choose|k: int| 0 <= k < tb.len() && tb[k] == x;
                assert(b[k + 1] == x);
                assert(b[0].id != b[k + 1].id);
                assert(b.contains(x));
                assert(a.contains(x));
                let m = choose|m: int| 0 <= m < a.len() && a[m] == x;
                assert(m != 0);
                assert(ta[m - 1] == x);
            }
        }
        assert forall|p: int, q: int| 0 <= p < ta.len() && 0 <= q < tb.len() && ta[p].id == tb[q].id implies ta[p]
            == tb[q] by {
            assert(ta[p] == a[p + 1] && tb[q] == b[q + 1]);
        }
        assert forall|x: int, y: int| #![trigger ta[x], ta[y]] 0 <= x < y < ta.len() implies view_key_le(
            ta[x],
            ta[y],
            g,
        ) && ta[x].id != ta[y].id by {
            assert(ta[x] == a[x + 1] && ta[y] == a[y + 1]);
        }
        assert forall|x: int, y: int| #![trigger tb[x], tb[y]] 0 <= x < y < tb.len() implies view_key_le(
            tb[x],
            tb[y],
            g,
        ) && tb[x].id != tb[y].id by {
            assert(tb[x] == b[x + 1] && tb[y] == b[y + 1]);
        }
        lemma_sorted_unique(ta, tb, g);
        assert(a =~= seq![a[0]] + ta);
        assert(b =~= seq![b[0]] + tb);
    }
}

/// Some channel of `chs` satisfying `q` has the abstract value `x`.
pub open spec fn has_view_with(chs: Seq<Channel>, q: spec_fn(Channel) -> bool, x: ChannelView) -> bool {
    exists|i: int| 0 <= i < chs.len() && (#[trigger] chs[i])@ == x && q(chs[i])
}

/// `q` reads nothing of a channel but its abstract value.
pub open spec fn view_determined(q: spec_fn(Channel) -> bool) -> bool {
    forall|c1: Channel, c2: Channel| #[trigger] q(c1) && c1@ == c2@ ==> #[trigger] q(c2)
}

proof fn lemma_selection_views(chs: Seq<Channel>, q: spec_fn(Channel) -> bool, g: bool)
    requires
        ids_distinct(chs),
    ensures
        views_sorted(views_at(chs, sort_indices(chs, select(chs, chs.len() as int, q), g)), g),
        forall|x: ChannelView|
            #[trigger] views_at(chs, sort_indices(chs, select(chs, chs.len() as int, q), g)).contains(x)
                <==> has_view_with(chs, q, x),
{
    let sel = select(chs, chs.len() as int, q);
    let srt = sort_indices(chs, sel, g);
    let vs = views_at(chs, srt);
    lemma_sorted_selection(chs, q, g);
    lemma_sort_sorted(chs, sel, g);
    lemma_select_props(chs, chs.len() as int, q);
    lemma_sort_no_dups(chs, sel, g);
    lemma_sort_contains(chs, sel, g);
    assert forall|a: int, b: int| #![trigger vs[a], vs[b]] 0 <= a < b < vs.len() implies view_key_le(
        vs[a],
        vs[b],
        g,
    ) && vs[a].id != vs[b].id by {
        assert(key_le(chs[srt[a]], chs[srt[b]], g));
        lemma_key_view(chs[srt[a]], chs[srt[b]], g);
        assert(srt[a] != srt[b]);
        if srt[a] < srt[b] {
            assert(chs[srt[a]].id@ != chs[srt[b]].id@);
        } else {
            assert(chs[srt[b]].id@ != chs[srt[a]].id@);
        }
    }
    assert forall|x: ChannelView| #[trigger] vs.contains(x) <==> has_view_with(chs, q, x) by {
        if vs.contains(x) {
            let k = choose|k: int| 0 <= k < vs.len() && vs[k] == x;
            assert(q(chs[srt[k]]));
            assert(chs[srt[k]]@ == x);
        }
        if has_view_with(chs, q, x) {
            let i = choose|i: int| 0 <= i < chs.len() && (#[trigger] chs[i])@ == x && q(chs[i]);
            assert(srt.contains(i));
            let k = choose|k: int| 0 <= k < srt.len() && srt[k] == i;
            assert(vs[k] == x);
        }
    }
}

proof fn lemma_selection_same(chs: Seq<Channel>, p: Seq<Channel>, q: spec_fn(Channel) -> bool, g: bool)
    requires
        ids_distinct(chs),
        ids_distinct(p),
        same_channels(chs, p),
        view_determined(q),
    ensures
        views_at(chs, sort_indices(chs, select(chs, chs.len() as int, q), g)) == views_at(
            p,
            sort_indices(p, select(p, p.len() as int, q), g),
        ),
{
    let a = views_at(chs, sort_indices(chs, select(chs, chs.len() as int, q), g));
    let b = views_at(p, sort_indices(p, select(p, p.len() as int, q), g));
    lemma_selection_views(chs, q, g);
    lemma_selection_views(p, q, g);
    assert forall|x: ChannelView| #[trigger] a.contains(x) <==> b.contains(x) by {
        if has_view_with(chs, q, x) {
            let i = choose|i: int| 0 <= i < chs.len() && (#[trigger] chs[i])@ == x && q(chs[i]);
            assert(has_view(chs, x));
            assert(has_view(p, x));
            let j = choose|j: int| 0 <= j < p.len() && (#[trigger] p[j])@ == x;
            assert(q(p[j]));
            assert(has_view_with(p, q, x));
        }
        if has_view_with(p, q, x) {
            let j = choose|j: int| 0 <= j < p.len() && (#[trigger] p[j])@ == x && q(p[j]);
            assert(has_view(p, x));
            assert(has_view(chs, x));
            let i = choose|i: int| 0 <= i < chs.len() && (#[trigger] chs[i])@ == x;
            assert(q(chs[i]));
            assert(has_view_with(chs, q, x));
        }
    }
    assert forall|i: int, j: int| #![trigger a[i], b[j]] 0 <= i < a.len() && 0 <= j < b.len() && a[i].id
        == b[j].id implies a[i] == b[j] by {
        assert(a.contains(a[i]));
        assert(b.contains(b[j]));
        let k = choose|k: int| 0 <= k < chs.len() && (#[trigger] chs[k])@ == a[i] && q(chs[k]);
        let m = choose|m: int| 0 <= m < p.len() && (#[trigger] p[m])@ == b[j] && q(p[m]);
        assert(has_view(p, b[j]));
        assert(has_view(chs, b[j]));
        let k2 = choose|k2: int| 0 <= k2 < chs.len() && (#[trigger] chs[k2])@ == b[j];
        if k < k2 {
            assert(chs[k].id@ != chs[k2].id@);
        } else if k2 < k {
            assert(chs[k2].id@ != chs[k].id@);
        }
    }
    lemma_sorted_unique(a, b, g);
}

/// The rows of channel values.
pub open spec fn rows_of_views(vs: Seq<ChannelView>) -> Seq<TreeRowView> {
    vs.map_values(|v: ChannelView| TreeRowView::Channel(v))
}

/// The header row of a category, from its abstract value.
pub open spec fn category_row_view(x: ChannelView) -> TreeRowView {
    TreeRowView::Category {
        id: x.id,
        name: match x.name {
            Some(n) => n,
            None => Seq::empty(),
        },
    }
}

/// The visible children of the category with id `id`, in order.
pub open spec fn kids_views(chs: Seq<Channel>, visible: Seq<String>, id: Seq<char>) -> Seq<ChannelView> {
    views_at(chs, sort_indices(chs, select(chs, chs.len() as int, is_child_of(id, visible)), true))
}

/// The rows of a category, from its abstract value.
pub open spec fn block_of_view(chs: Seq<Channel>, visible: Seq<String>, x: ChannelView) -> Seq<
    TreeRowView,
> {
    let k = kids_views(chs, visible, x.id);
    if k.len() == 0 {
        Seq::empty()
    } else {
        seq![category_row_view(x)] + rows_of_views(k)
    }
}

/// The rows of the categories with these abstract values, in order.
pub open spec fn blocks_list(chs: Seq<Channel>, visible: Seq<String>, cats: Seq<ChannelView>) -> Seq<
    TreeRowView,
>
    decreases cats.len(),
{
    if cats.len() == 0 {
        Seq::empty()
    } else {
        blocks_list(chs, visible, cats.drop_last()) + block_of_view(chs, visible, cats.last())
    }
}

proof fn lemma_blocks_by_view(chs: Seq<Channel>, cats: Seq<int>, visible: Seq<String>)
    requires
        forall|j: int| 0 <= j < cats.len() ==> 0 <= #[trigger] cats[j] < chs.len(),
    ensures
        category_blocks(chs, cats, visible) == blocks_list(chs, visible, views_at(chs, cats)),
    decreases cats.len(),
{
    if cats.len() > 0 {
        let c = cats.last();
        assert(c == cats[cats.len() - 1]);
        lemma_blocks_by_view(chs, cats.drop_last(), visible);
        assert(views_at(chs, cats).drop_last() =~= views_at(chs, cats.drop_last()));
        assert(views_at(chs, cats).last() == chs[c]@);
        let kids = sort_indices(chs, select(chs, chs.len() as int, is_child_of(chs[c].id@, visible)), true);
        assert(channel_rows(chs, kids) =~= rows_of_views(views_at(chs, kids)));
        assert(category_row(chs[c]) == category_row_view(chs[c]@));
        assert(category_block(chs, c, visible) == block_of_view(chs, visible, chs[c]@));
    }
}

proof fn lemma_blocks_list_same(a: Seq<Channel>, b: Seq<Channel>, visible: Seq<String>, cats: Seq<ChannelView>)
    requires
        forall|x: ChannelView| #[trigger] block_of_view(a, visible, x) == block_of_view(b, visible, x),
    ensures
        blocks_list(a, visible, cats) == blocks_list(b, visible, cats),
    decreases cats.len(),
{
    if cats.len() > 0 {
        lemma_blocks_list_same(a, b, visible, cats.drop_last());
        assert(block_of_view(a, visible, cats.last()) == block_of_view(b, visible, cats.last()));
    }
}

proof fn lemma_selectors_view_determined(visible: Seq<String>, id: Seq<char>)
    ensures
        view_determined(is_root(visible)),
        view_determined(is_category()),
        view_determined(is_child_of(id, visible)),
{
    assert forall|c1: Channel, c2: Channel| #[trigger] is_root(visible)(c1) && c1@ == c2@ implies #[trigger] is_root(
        visible,
    )(c2) by {
        assert(c1@.parent_id == c2@.parent_id);
        assert(c1.id@ == c2.id@);
    }
    assert forall|c1: Channel, c2: Channel| #[trigger] is_category()(c1) && c1@ == c2@ implies #[trigger] is_category()(
        c2,
    ) by {
        assert(c1@.kind == c2@.kind);
    }
    assert forall|c1: Channel, c2: Channel| #[trigger] is_child_of(id, visible)(c1) && c1@ == c2@ implies #[trigger] is_child_of(
        id,
        visible,
    )(c2) by {
        assert(c1@.parent_id == c2@.parent_id);
        assert(c1.id@ == c2.id@);
    }
}

/// The input order of the channels never changes the tree: two lists of
/// channels with pairwise distinct ids that hold the same channels, in any
/// order, give the same rows.
pub proof fn law_channel_tree_input_order(chs: Seq<Channel>, p: Seq<Channel>, visible: Seq<String>)
    requires
        ids_distinct(chs),
        ids_distinct(p),
        same_channels(chs, p),
    ensures
        channel_tree_spec(chs, visible) == channel_tree_spec(p, visible),
{
    lemma_selectors_view_determined(visible, Seq::empty());
    let r1 = sort_indices(chs, select(chs, chs.len() as int, is_root(visible)), false);
    let r2 = sort_indices(p, select(p, p.len() as int, is_root(visible)), false);
    lemma_selection_same(chs, p, is_root(visible), false);
    assert(channel_rows(chs, r1) =~= rows_of_views(views_at(chs, r1)));
    assert(channel_rows(p, r2) =~= rows_of_views(views_at(p, r2)));
    let c1 = sort_indices(chs, select(chs, chs.len() as int, is_category()), false);
    let c2 = sort_indices(p, select(p, p.len() as int, is_category()), false);
    lemma_selection_same(chs, p, is_category(), false);
    lemma_sorted_selection(chs, is_category(), false);
    lemma_sorted_selection(p, is_category(), false);
    lemma_blocks_by_view(chs, c1, visible);
    lemma_blocks_by_view(p, c2, visible);
    assert forall|x: ChannelView| #[trigger] block_of_view(chs, visible, x) == block_of_view(p, visible, x) by {
        lemma_selectors_view_determined(visible, x.id);
        lemma_selection_same(chs, p, is_child_of(x.id, visible), true);
    }
    lemma_blocks_list_same(chs, p, visible, views_at(chs, c1));
}

/// Every visible channel without a parent, other than a category, is listed.
pub proof fn law_visible_root_listed(chs: Seq<Channel>, visible: Seq<String>, i: int)
    requires
        0 <= i < chs.len(),
        chs[i].kind != CATEGORY,
        chs[i].parent_id is None,
        ids_contain(visible, chs[i].id@),
    ensures
        channel_tree_spec(chs, visible).contains(TreeRowView::Channel(chs[i]@)),
{
    let roots = sort_indices(chs, select(chs, chs.len() as int, is_root(visible)), false);
    let cats = sort_indices(chs, select(chs, chs.len() as int, is_category()), false);
    let rr = channel_rows(chs, roots);
    let bb = category_blocks(chs, cats, visible);
    lemma_sorted_selection(chs, is_root(visible), false);
    assert(is_root(visible)(chs[i]));
    assert(roots.contains(i));
    let j = choose|j: int| 0 <= j < roots.len() && roots[j] == i;
    assert(rr[j] == TreeRowView::Channel(chs[i]@));
    assert((rr + bb)[j] == rr[j]);
}

proof fn lemma_blocks_contain(chs: Seq<Channel>, cats: Seq<int>, visible: Seq<String>, m: int, r: TreeRowView)
    requires
        0 <= m < cats.len(),
        category_block(chs, cats[m], visible).contains(r),
    ensures
        category_blocks(chs, cats, visible).contains(r),
    decreases cats.len(),
{
    broadcast use vstd::seq_lib::lemma_seq_concat_contains_all_elements;

    if m < cats.len() - 1 {
        assert(cats.drop_last()[m] == cats[m]);
        lemma_blocks_contain(chs, cats.drop_last(), visible, m, r);
    }
}

/// Every visible channel under an existing category is listed.
pub proof fn law_visible_child_listed(chs: Seq<Channel>, visible: Seq<String>, i: int, c: int)
    requires
        0 <= i < chs.len(),
        0 <= c < chs.len(),
        chs[c].kind == CATEGORY,
        chs[i].kind != CATEGORY,
        opt_view(chs[i].parent_id) == Some(chs[c].id@),
        ids_contain(visible, chs[i].id@),
    ensures
        channel_tree_spec(chs, visible).contains(TreeRowView::Channel(chs[i]@)),
{
    broadcast use vstd::seq_lib::lemma_seq_concat_contains_all_elements;

    let roots = sort_indices(chs, select(chs, chs.len() as int, is_root(visible)), false);
    let cats = sort_indices(chs, select(chs, chs.len() as int, is_category()), false);
    let rr = channel_rows(chs, roots);
    lemma_sorted_selection(chs, is_category(), false);
    assert(is_category()(chs[c]));
    assert(cats.contains(c));
    let m = choose|m: int| 0 <= m < cats.len() && cats[m] == c;
    let p = is_child_of(chs[c].id@, visible);
    let kids = sort_indices(chs, select(chs, chs.len() as int, p), true);
    lemma_sorted_selection(chs, p, true);
    assert(p(chs[i]));
    assert(kids.contains(i));
    let j = choose|j: int| 0 <= j < kids.len() && kids[j] == i;
    let block = category_block(chs, c, visible);
    assert(block == seq![category_row(chs[c])] + channel_rows(chs, kids));
    assert(block[j + 1] == TreeRowView::Channel(chs[i]@));
    assert(block.contains(TreeRowView::Channel(chs[i]@)));
    lemma_blocks_contain(chs, cats, visible, m, TreeRowView::Channel(chs[i]@));
    assert(channel_tree_spec(chs, visible) == rr + category_blocks(chs, cats, visible));
}

/// Whether `a` comes no later than `b` in code point order.
fn str_le_exec(a: &Vec<char>, b: &Vec<char>) -> (r: bool)
    ensures
        r == str_le(a@, b@),
{
    let mut i: usize = 0;
    assert(a@.skip(0) == a@ && b@.skip(0) == b@);
    while i < a.len()
        invariant
            i <= a@.len(),
            str_le(a@, b@) == str_le(a@.skip(i as int), b@.skip(i as int)),
            i <= b@.len(),
        decreases a@.len() - i,
    {
        if i >= b.len() {
            return false;
        }
        let x = a[i];
        let y = b[i];
        assert(a@.skip(i as int)[0] == x && b@.skip(i as int)[0] == y);
        if (x as u32) < (y as u32) {
            return true;
        }
        if x != y {
            return false;
        }
        assert(a@.skip(i as int).skip(1) == a@.skip(i + 1));
        assert(b@.skip(i as int).skip(1) == b@.skip(i + 1));
        i = i + 1;
    }
    true
}

/// Whether channel `a` comes no later than channel `b`.
fn key_le_exec(chs: &[Channel], ids: &Vec<Vec<char>>, a: usize, b: usize, grouped: bool) -> (r: bool)
    requires
        a < chs@.len(),
        b < chs@.len(),
        ids@.len() == chs@.len(),
        forall|k: int| 0 <= k < chs@.len() ==> (#[trigger] ids@[k])@ == chs@[k].id@,
    ensures
        r == key_le(chs@[a as int], chs@[b as int], grouped),
{
    let ga = if grouped {
        type_group(chs[a].kind)
    } else {
        0
    };
    let gb = if grouped {
        type_group(chs[b].kind)
    } else {
        0
    };
    if ga < gb {
        return true;
    }
    if ga != gb {
        return false;
    }
    let pa: i32 = match chs[a].position {
        Some(p) => p,
        None => 0,
    };
    let pb: i32 = match chs[b].position {
        Some(p) => p,
        None => 0,
    };
    if pa < pb {
        return true;
    }
    if pa != pb {
        return false;
    }
    str_le_exec(&ids[a], &ids[b])
}

/// Sorts the indices `s` stably by the channel order.
fn sort_exec(chs: &[Channel], ids: &Vec<Vec<char>>, s: &Vec<usize>, grouped: bool) -> (r: Vec<usize>)
    requires
        ids@.len() == chs@.len(),
        forall|k: int| 0 <= k < chs@.len() ==> (#[trigger] ids@[k])@ == chs@[k].id@,
        forall|k: int| 0 <= k < s@.len() ==> #[trigger] s@[k] < chs@.len(),
    ensures
        r@.map_values(|i: usize| i as int) == sort_indices(
            chs@,
            s@.map_values(|i: usize| i as int),
            grouped,
        ),
        forall|k: int| 0 <= k < r@.len() ==> #[trigger] r@[k] < chs@.len(),
{
    let mut out: Vec<usize> = Vec::new();
    let mut n: usize = 0;
    while n < s.len()
        invariant
            n <= s@.len(),
            ids@.len() == chs@.len(),
            forall|k: int| 0 <= k < chs@.len() ==> (#[trigger] ids@[k])@ == chs@[k].id@,
            forall|k: int| 0 <= k < s@.len() ==> #[trigger] s@[k] < chs@.len(),
            forall|k: int| 0 <= k < out@.len() ==> #[trigger] out@[k] < chs@.len(),
            out@.map_values(|i: usize| i as int) == sort_indices(
                chs@,
                s@.take(n as int).map_values(|i: usize| i as int),
                grouped,
            ),
        decreases s@.len() - n,
    {
        let x = s[n];
        let ghost before = out@.map_values(|i: usize| i as int);
        // find the insertion point: after the last element that does not come after x
        let mut p = out.len();
        assert(before.take(p as int) == before);
        assert(before.skip(p as int) == Seq::<int>::empty());
        while p > 0 && !key_le_exec(chs, ids, out[p - 1], x, grouped)
            invariant
                p <= out@.len(),
                x < chs@.len(),
                ids@.len() == chs@.len(),
                forall|k: int| 0 <= k < chs@.len() ==> (#[trigger] ids@[k])@ == chs@[k].id@,
                forall|k: int| 0 <= k < out@.len() ==> #[trigger] out@[k] < chs@.len(),
                before == out@.map_values(|i: usize| i as int),
                insert_sorted(chs@, before, x as int, grouped) == insert_sorted(
                    chs@,
                    before.take(p as int),
                    x as int,
                    grouped,
                ) + before.skip(p as int),
            decreases p,
        {
            proof {
                let t = before.take(p as int);
                assert(t.drop_last() == before.take(p - 1));
                assert(t.last() == before[p - 1]);
                assert(before.skip(p - 1) == seq![before[p - 1]] + before.skip(p as int));
                assert(insert_sorted(chs@, t, x as int, grouped) == insert_sorted(
                    chs@,
                    before.take(p - 1),
                    x as int,
                    grouped,
                ).push(before[p - 1]));
                assert(insert_sorted(chs@, before.take(p - 1), x as int, grouped).push(before[p - 1])
                    + before.skip(p as int) == insert_sorted(
                    chs@,
                    before.take(p - 1),
                    x as int,
                    grouped,
                ) + before.skip(p - 1));
            }
            p = p - 1;
        }
        proof {
            let t = before.take(p as int);
            if p > 0 {
                assert(t.last() == before[p - 1]);
                assert(insert_sorted(chs@, t, x as int, grouped) == t.push(x as int));
            } else {
                assert(insert_sorted(chs@, t, x as int, grouped) == seq![x as int]);
            }
        }
        out.insert(p, x);
        proof {
            assert(s@.take(n + 1).map_values(|i: usize| i as int).drop_last() == s@.take(
                n as int,
            ).map_values(|i: usize| i as int));
            assert(s@.take(n + 1).map_values(|i: usize| i as int).last() == x as int);
            assert(out@.map_values(|i: usize| i as int) == before.take(p as int).push(x as int)
                + before.skip(p as int));
        }
        n = n + 1;
    }
    assert(s@.take(n as int) == s@);
    out
}

/// Whether two character vectors are equal.
fn chars_eq(a: &Vec<char>, b: &Vec<char>) -> (r: bool)
    ensures
        r == (a@ == b@),
{
    if a.len() != b.len() {
        return false;
    }
    let mut i: usize = 0;
    while i < a.len()
        invariant
            i <= a@.len(),
            a@.len() == b@.len(),
            forall|k: int| 0 <= k < i ==> a@[k] == b@[k],
        decreases a@.len() - i,
    {
        if a[i] != b[i] {
            return false;
        }
        i = i + 1;
    }
    assert(a@ =~= b@);
    true
}

/// The indices of the channels that are roots (`mode` 0), categories
/// (`mode` 1) or visible children of `cat_id` (`mode` 2).
fn select_exec(chs: &[Channel], visible: &[Snowflake], mode: u8, cat_id: &Vec<char>) -> (r: Vec<usize>)
    ensures
        r@.map_values(|i: usize| i as int) == select(
            chs@,
            chs@.len() as int,
            if mode == 0 {
                is_root(visible@)
            } else if mode == 1 {
                is_category()
            } else {
                is_child_of(cat_id@, visible@)
            },
        ),
        forall|k: int| 0 <= k < r@.len() ==> #[trigger] r@[k] < chs@.len(),
{
    let ghost p = if mode == 0 {
        is_root(visible@)
    } else if mode == 1 {
        is_category()
    } else {
        is_child_of(cat_id@, visible@)
    };
    let mut out: Vec<usize> = Vec::new();
    let mut k: usize = 0;
    while k < chs.len()
        invariant
            k <= chs@.len(),
            p == (if mode == 0 {
                is_root(visible@)
            } else if mode == 1 {
                is_category()
            } else {
                is_child_of(cat_id@, visible@)
            }),
            out@.map_values(|i: usize| i as int) == select(chs@, k as int, p),
            forall|j: int| 0 <= j < out@.len() ==> #[trigger] out@[j] < k,
        decreases chs@.len() - k,
    {
        let c = &chs[k];
        let keep = if mode == 0 {
            c.kind != CATEGORY && c.parent_id.is_none() && contains_id(visible, c.id.as_str())
        } else if mode == 1 {
            c.kind == CATEGORY
        } else {
            c.kind != CATEGORY && match &c.parent_id {
                Some(pid) => {
                    let pv = chars_of(pid.as_str());
                    chars_eq(&pv, cat_id) && contains_id(visible, c.id.as_str())
                },
                None => false,
            }
        };
        assert(keep == p(chs@[k as int]));
        let ghost before = out@;
        if keep {
            out.push(k);
            assert(out@.map_values(|i: usize| i as int) == before.map_values(|i: usize| i as int).push(
                k as int,
            ));
        }
        k = k + 1;
    }
    out
}

/// Builds Discord's channel tree: visible root channels, then the categories
/// by position that hold at least one visible channel, each followed by its
/// visible channels.
pub fn build_channel_tree(channels: &[Channel], visible: &[Snowflake]) -> (r: Vec<TreeRow>)
    ensures
        row_views(r@) == channel_tree_spec(channels@, visible@),
{
    let mut ids: Vec<Vec<char>> = Vec::new();
    let mut k: usize = 0;
    while k < channels.len()
        invariant
            k <= channels@.len(),
            ids@.len() == k,
            forall|j: int| 0 <= j < k ==> (#[trigger] ids@[j])@ == channels@[j].id@,
        decreases channels@.len() - k,
    {
        ids.push(chars_of(channels[k].id.as_str()));
        k = k + 1;
    }
    let none: Vec<char> = Vec::new();
    let mut rows: Vec<TreeRow> = Vec::new();
    let roots = select_exec(channels, visible, 0, &none);
    let roots = sort_exec(channels, &ids, &roots, false);
    let mut i: usize = 0;
    while i < roots.len()
        invariant
            i <= roots@.len(),
            forall|k: int| 0 <= k < roots@.len() ==> #[trigger] roots@[k] < channels@.len(),
            row_views(rows@) == channel_rows(
                channels@,
                roots@.take(i as int).map_values(|i: usize| i as int),
            ),
        decreases roots@.len() - i,
    {
        let ghost before = row_views(rows@);
        rows.push(TreeRow::Channel(channels[roots[i]].copy()));
        assert(roots@.take(i + 1).map_values(|i: usize| i as int) == roots@.take(i as int).map_values(
            |i: usize| i as int,
        ).push(roots@[i as int] as int));
        assert(row_views(rows@) == before.push(TreeRowView::Channel(channels@[roots@[i as int] as int]@)));
        i = i + 1;
    }
    assert(roots@.take(i as int) == roots@);
    let ghost root_rows = row_views(rows@);
    let cats = select_exec(channels, visible, 1, &none);
    let cats = sort_exec(channels, &ids, &cats, false);
    let mut c: usize = 0;
    while c < cats.len()
        invariant
            c <= cats@.len(),
            ids@.len() == channels@.len(),
            forall|k: int| 0 <= k < channels@.len() ==> (#[trigger] ids@[k])@ == channels@[k].id@,
            forall|k: int| 0 <= k < cats@.len() ==> #[trigger] cats@[k] < channels@.len(),
            row_views(rows@) == root_rows + category_blocks(
                channels@,
                cats@.take(c as int).map_values(|i: usize| i as int),
                visible@,
            ),
        decreases cats@.len() - c,
    {
        let cat = &channels[cats[c]];
        let ghost ci = cats@[c as int] as int;
        let ghost before = row_views(rows@);
        let kids = select_exec(channels, visible, 2, &ids[cats[c]]);
        let kids = sort_exec(channels, &ids, &kids, true);
        proof {
            assert(cats@.take(c + 1).map_values(|i: usize| i as int).drop_last() == cats@.take(
                c as int,
            ).map_values(|i: usize| i as int));
            assert(cats@.take(c + 1).map_values(|i: usize| i as int).last() == ci);
        }
        if kids.len() > 0 {
            rows.push(
                TreeRow::Category {
                    id: cat.id.clone(),
                    name: match copy_opt(&cat.name) {
                        Some(n) => n,
                        None => String::new(),
                    },
                },
            );
            assert(row_views(rows@) == before.push(category_row(channels@[ci])));
            let mut j: usize = 0;
            while j < kids.len()
                invariant
                    j <= kids@.len(),
                    forall|k: int| 0 <= k < kids@.len() ==> #[trigger] kids@[k] < channels@.len(),
                    row_views(rows@) == before.push(category_row(channels@[ci])) + channel_rows(
                        channels@,
                        kids@.take(j as int).map_values(|i: usize| i as int),
                    ),
                decreases kids@.len() - j,
            {
                let ghost b2 = row_views(rows@);
                rows.push(TreeRow::Channel(channels[kids[j]].copy()));
                assert(kids@.take(j + 1).map_values(|i: usize| i as int) == kids@.take(
                    j as int,
                ).map_values(|i: usize| i as int).push(kids@[j as int] as int));
                assert(row_views(rows@) == b2.push(
                    TreeRowView::Channel(channels@[kids@[j as int] as int]@),
                ));
                j = j + 1;
            }
            assert(kids@.take(j as int) == kids@);
            assert(before.push(category_row(channels@[ci])) == before + seq![
                category_row(channels@[ci]),
            ]);
        }
        c = c + 1;
    }
    assert(cats@.take(c as int) == cats@);
    rows
}

} // verus!
