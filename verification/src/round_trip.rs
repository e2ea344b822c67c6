//! What rebuilding gives back of a saved tree: the rows planned for a tree,
//! loaded again, rebuild the same tree with each node's children in
//! reverse order and without the fields that are not stored.

use vstd::prelude::*;
use crate::db_node::DbView;
use crate::fs_node::NodeView;
use crate::persist::{built, built_tree, child_ids, first_root, last_index_of, save_rev, save_rows};

verus! {

/// The tree that the saved rows of `n` rebuild: the stored fields of each
/// node, no previous size or modification time, and the children in
/// reverse order (the order in which they were saved).
pub open spec fn restored(n: NodeView) -> NodeView
    decreases n,
{
    NodeView {
        prev_size: None,
        modified: None,
        children: Seq::new(
            n.children.len(),
            |m: int|
                if 0 <= m < n.children.len() {
                    restored(n.children[n.children.len() - 1 - m])
                } else {
                    arbitrary()
                },
        ),
        ..n
    }
}

/// Rows placed from `start` on: row `i` has id `start + i`, and its parent
/// is `parent` or a row before it from `start` on.
pub open spec fn placed(r: Seq<DbView>, start: int, parent: Option<int>) -> bool {
    forall|i: int|
        0 <= i < r.len() ==> {
            &&& #[trigger] r[i].id == start + i
            &&& (r[i].parent_id == parent || (r[i].parent_id matches Some(q) && start <= q < start + i))
        }
}

proof fn lemma_rows_shape(n: NodeView, pos: int, par: Option<int>, sid: i64)
    ensures
        save_rows(n, pos, par, sid).len() >= 1,
        save_rows(n, pos, par, sid)[0] == crate::persist::row_for(n, pos, par, sid),
        forall|i: int|
            0 < i < save_rows(n, pos, par, sid).len() ==> {
                &&& #[trigger] save_rows(n, pos, par, sid)[i].id == pos + i
                &&& save_rows(n, pos, par, sid)[i].parent_id matches Some(q) && pos <= q < pos + i
            },
    decreases n, 1nat, 0nat,
{
    let k = n.children.len() as int;
    let t = save_rev(n.children, 0, k, pos + 1, pos, sid);
    lemma_rev_shape(n.children, 0, k, pos + 1, pos, sid);
    let r = save_rows(n, pos, par, sid);
    assert(r == seq![crate::persist::row_for(n, pos, par, sid)] + t);
    assert forall|i: int| 0 < i < r.len() implies {
        &&& #[trigger] r[i].id == pos + i
        &&& r[i].parent_id matches Some(q) && pos <= q < pos + i
    } by {
        assert(r[i] == t[i - 1]);
    }
}

proof fn lemma_rev_shape(s: Seq<NodeView>, lo: int, hi: int, start: int, p: int, sid: i64)
    ensures
        placed(save_rev(s, lo, hi, start, p, sid), start, Some(p)),
    decreases s, 0nat, hi - lo,
{
    if hi <= lo || hi > s.len() || lo < 0 {
    } else {
        let first = save_rows(s[hi - 1], start, Some(p), sid);
        let rest = save_rev(s, lo, hi - 1, start + first.len(), p, sid);
        lemma_rows_shape(s[hi - 1], start, Some(p), sid);
        lemma_rev_shape(s, lo, hi - 1, start + first.len(), p, sid);
        let r = save_rev(s, lo, hi, start, p, sid);
        assert(r == first + rest);
        assert forall|i: int| 0 <= i < r.len() implies {
            &&& #[trigger] r[i].id == start + i
            &&& (r[i].parent_id == Some(p) || (r[i].parent_id matches Some(q) && start <= q < start + i))
        } by {
            if i < first.len() {
                assert(r[i] == first[i]);
            } else {
                assert(r[i] == rest[i - first.len()]);
            }
        }
    }
}

proof fn lemma_child_ids_concat(a: Seq<DbView>, b: Seq<DbView>, p: int)
    ensures
        child_ids(a + b, p) == child_ids(a, p) + child_ids(b, p),
    decreases b.len(),
{
    if b.len() == 0 {
        assert(a + b =~= a);
        assert(child_ids(a, p) + child_ids(b, p) =~= child_ids(a, p));
    } else {
        lemma_child_ids_concat(a, b.drop_last(), p);
        assert((a + b).drop_last() =~= a + b.drop_last());
        assert((a + b).last() == b.last());
        if b.last().parent_id == Some(p) {
            assert(child_ids(a, p) + child_ids(b.drop_last(), p).push(b.last().id) =~= (child_ids(a, p)
                + child_ids(b.drop_last(), p)).push(b.last().id));
        }
    }
}

proof fn lemma_child_ids_none(r: Seq<DbView>, p: int)
    requires
        forall|i: int| 0 <= i < r.len() ==> #[trigger] r[i].parent_id != Some(p),
    ensures
        child_ids(r, p) == Seq::<int>::empty(),
    decreases r.len(),
{
    if r.len() > 0 {
        lemma_child_ids_none(r.drop_last(), p);
        assert(r.last() == r[r.len() - 1]);
    }
}

proof fn lemma_child_ids_subtree(c: NodeView, st: int, p: int, sid: i64)
    requires
        p < st,
    ensures
        child_ids(save_rows(c, st, Some(p), sid), p) == seq![st],
{
    let k = c.children.len() as int;
    let t = save_rev(c.children, 0, k, st + 1, st, sid);
    let row = crate::persist::row_for(c, st, Some(p), sid);
    lemma_rev_shape(c.children, 0, k, st + 1, st, sid);
    assert forall|i: int| 0 <= i < t.len() implies #[trigger] t[i].parent_id != Some(p) by {
        assert(t[i].id == st + 1 + i);
    }
    lemma_child_ids_none(t, p);
    lemma_child_ids_concat(seq![row], t, p);
    assert(seq![row].drop_last() =~= Seq::<DbView>::empty());
    assert(child_ids(seq![row].drop_last(), p) =~= Seq::<int>::empty());
    assert(seq![row].last() == row);
    assert(Seq::<int>::empty().push(st) =~= seq![st]);
    assert(child_ids(seq![row], p) == seq![st]);
    assert(save_rows(c, st, Some(p), sid) == seq![row] + t);
    assert(seq![st] + Seq::<int>::empty() =~= seq![st]);
}

proof fn lemma_child_ids_rev(kids: Seq<NodeView>, lo: int, hi: int, start: int, p: int, sid: i64)
    requires
        0 <= lo <= hi <= kids.len(),
        p < start,
    ensures
        child_ids(save_rev(kids, lo, hi, start, p, sid), p).len() == hi - lo,
        forall|m: int|
            0 <= m < hi - lo ==> #[trigger] child_ids(save_rev(kids, lo, hi, start, p, sid), p)[m] == start
                + save_rev(kids, hi - m, hi, start, p, sid).len(),
    decreases hi - lo,
{
    if lo == hi {
        lemma_child_ids_none(save_rev(kids, lo, hi, start, p, sid), p);
    } else {
        let first = save_rows(kids[hi - 1], start, Some(p), sid);
        let s1 = start + first.len();
        lemma_rows_shape(kids[hi - 1], start, Some(p), sid);
        let rest = save_rev(kids, lo, hi - 1, s1, p, sid);
        assert(save_rev(kids, lo, hi, start, p, sid) == first + rest);
        lemma_child_ids_subtree(kids[hi - 1], start, p, sid);
        lemma_child_ids_concat(first, rest, p);
        lemma_child_ids_rev(kids, lo, hi - 1, s1, p, sid);
        let c = child_ids(save_rev(kids, lo, hi, start, p, sid), p);
        let cr = child_ids(rest, p);
        assert(c == seq![start] + cr);
        assert forall|m: int| 0 <= m < hi - lo implies #[trigger] c[m] == start + save_rev(kids, hi - m, hi, start, p, sid).len() by {
            if m == 0 {
                assert(save_rev(kids, hi, hi, start, p, sid).len() == 0);
            } else {
                assert(c[m] == cr[m - 1]);
                let x = hi - m;
                assert(x < hi);
                assert(save_rev(kids, x, hi, start, p, sid) == first + save_rev(kids, x, hi - 1, s1, p, sid));
                assert(cr[m - 1] == s1 + save_rev(kids, (hi - 1) - (m - 1), hi - 1, s1, p, sid).len());
            }
        }
    }
}

proof fn lemma_rev_split(kids: Seq<NodeView>, lo: int, m: int, hi: int, start: int, p: int, sid: i64)
    requires
        0 <= lo <= m <= hi <= kids.len(),
    ensures
        save_rev(kids, lo, hi, start, p, sid) == save_rev(kids, m, hi, start, p, sid) + save_rev(
            kids,
            lo,
            m,
            start + save_rev(kids, m, hi, start, p, sid).len(),
            p,
            sid,
        ),
    decreases hi - m,
{
    if m == hi {
        assert(save_rev(kids, m, hi, start, p, sid) =~= Seq::<DbView>::empty());
        assert(save_rev(kids, lo, hi, start, p, sid) =~= Seq::<DbView>::empty() + save_rev(kids, lo, m, start, p, sid));
    } else {
        let first = save_rows(kids[hi - 1], start, Some(p), sid);
        let s1 = start + first.len();
        lemma_rev_split(kids, lo, m, hi - 1, s1, p, sid);
        let a = save_rev(kids, m, hi - 1, s1, p, sid);
        assert(save_rev(kids, m, hi, start, p, sid) == first + a);
        assert(save_rev(kids, lo, hi, start, p, sid) == first + save_rev(kids, lo, hi - 1, s1, p, sid));
        assert(save_rev(kids, lo, hi, start, p, sid) =~= (first + a) + save_rev(kids, lo, m, s1 + a.len(), p, sid));
    }
}

proof fn lemma_positional_index(s: Seq<DbView>, id: int)
    requires
        forall|i: int| 0 <= i < s.len() ==> #[trigger] s[i].id == i,
        0 <= id < s.len(),
    ensures
        last_index_of(s, id) == id,
    decreases s.len(),
{
    if s.last().id != id {
        assert forall|i: int| 0 <= i < s.drop_last().len() implies #[trigger] s.drop_last()[i].id == i by {
            assert(s.drop_last()[i] == s[i]);
        }
        lemma_positional_index(s.drop_last(), id);
    }
}

proof fn lemma_first_root_zero(s: Seq<DbView>)
    requires
        s.len() >= 1,
        s[0].parent_id is None,
    ensures
        first_root(s) == 0,
    decreases s.len(),
{
    if s.len() > 1 {
        assert(s.drop_last()[0] == s[0]);
        lemma_first_root_zero(s.drop_last());
    } else {
        assert(s.drop_last().len() == 0);
        assert(first_root(s.drop_last()) == -1);
        assert(s.last() == s[0]);
    }
}

/// No row of `s` outside `[lo, hi)` names a row of `[lo, hi)` as its parent.
pub open spec fn closed_range(s: Seq<DbView>, lo: int, hi: int) -> bool {
    forall|j: int|
        0 <= j < s.len() && !(lo <= j < hi) ==> !(#[trigger] s[j].parent_id matches Some(q) && lo <= q < hi)
}

/// The ids of `s` are the positions of its rows.
pub open spec fn positional(s: Seq<DbView>) -> bool {
    forall|i: int| 0 <= i < s.len() ==> #[trigger] s[i].id == i
}

/// The child subtree at index `ci` of a node at `pos` is closed within the
/// whole sequence, given that the node's subtree is.
proof fn lemma_child_closed(
    s: Seq<DbView>,
    n: NodeView,
    pos: int,
    par: Option<int>,
    sid: i64,
    ci: int,
)
    requires
        0 <= ci < n.children.len(),
        0 <= pos,
        pos + save_rows(n, pos, par, sid).len() <= s.len(),
        s.subrange(pos, pos + save_rows(n, pos, par, sid).len()) == save_rows(n, pos, par, sid),
        par matches Some(q) ==> q < pos,
        closed_range(s, pos, pos + save_rows(n, pos, par, sid).len()),
    ensures
        ({
            let k = n.children.len() as int;
            let a = save_rev(n.children, ci + 1, k, pos + 1, pos, sid);
            let st = pos + 1 + a.len();
            let rc = save_rows(n.children[ci], st, Some(pos), sid);
            &&& st + rc.len() <= pos + save_rows(n, pos, par, sid).len()
            &&& s.subrange(st, st + rc.len()) == rc
            &&& closed_range(s, st, st + rc.len())
        }),
{
    let k = n.children.len() as int;
    let r = save_rows(n, pos, par, sid);
    let t = save_rev(n.children, 0, k, pos + 1, pos, sid);
    let a = save_rev(n.children, ci + 1, k, pos + 1, pos, sid);
    let st = pos + 1 + a.len();
    let rc = save_rows(n.children[ci], st, Some(pos), sid);
    let b = save_rev(n.children, 0, ci, st + rc.len(), pos, sid);
    lemma_rev_split(n.children, 0, ci + 1, k, pos + 1, pos, sid);
    assert(save_rev(n.children, 0, ci + 1, st, pos, sid) == rc + b);
    let row = crate::persist::row_for(n, pos, par, sid);
    assert(r == seq![row] + t);
    assert(t == a + (rc + b));
    assert(r =~= seq![row] + a + rc + b);
    assert(s.subrange(st, st + rc.len()) =~= rc) by {
        assert forall|i: int| 0 <= i < rc.len() implies s.subrange(st, st + rc.len())[i] == rc[i] by {
            assert(s[st + i] == r[st + i - pos]);
            assert(r[st + i - pos] == rc[i]);
        }
    }
    lemma_rev_shape(n.children, ci + 1, k, pos + 1, pos, sid);
    lemma_rev_shape(n.children, 0, ci, st + rc.len(), pos, sid);
    assert forall|j: int|
        0 <= j < s.len() && !(st <= j < st + rc.len()) implies !(#[trigger] s[j].parent_id matches Some(q) && st <= q
        < st + rc.len()) by {
        let pj = s[j].parent_id;
        if pos <= j < pos + r.len() {
            assert(s[j] == r[j - pos]);
            if j == pos {
                assert(r[0] == row);
            } else if j < st {
                assert(r[j - pos] == a[j - pos - 1]);
                assert(a[j - pos - 1].id == pos + 1 + (j - pos - 1));
            } else {
                assert(r[j - pos] == b[j - st - rc.len()]);
                assert(b[j - st - rc.len()].id == st + rc.len() + (j - st - rc.len()));
            }
        } else {
            assert(!(pj matches Some(q) && pos <= q < pos + r.len()));
        }
    }
}

/// The subtree rebuilt for the row of node `n`, placed at `pos` within the
/// positional, closed rows `s`, is `restored(n)` when the fuel reaches the
/// subtree's depth (bounded by its number of rows).
proof fn lemma_rebuilt(s: Seq<DbView>, n: NodeView, pos: int, par: Option<int>, sid: i64, fuel: nat)
    requires
        positional(s),
        0 <= pos,
        pos + save_rows(n, pos, par, sid).len() <= s.len(),
        s.subrange(pos, pos + save_rows(n, pos, par, sid).len()) == save_rows(n, pos, par, sid),
        par matches Some(q) ==> q < pos,
        closed_range(s, pos, pos + save_rows(n, pos, par, sid).len()),
        fuel + 1 >= save_rows(n, pos, par, sid).len(),
    ensures
        built(s, pos, fuel) == restored(n),
    decreases n,
{
    let k = n.children.len() as int;
    let r = save_rows(n, pos, par, sid);
    let t = save_rev(n.children, 0, k, pos + 1, pos, sid);
    let row = crate::persist::row_for(n, pos, par, sid);
    assert(r == seq![row] + t);
    lemma_rows_shape(n, pos, par, sid);
    lemma_positional_index(s, pos);
    assert(s[pos] == r[0]);
    let want = restored(n);
    let got = built(s, pos, fuel);
    if fuel == 0 {
        if k > 0 {
            assert(t.len() >= 1) by {
                lemma_rows_shape(n.children[k - 1], pos + 1, Some(pos), sid);
            }
        }
        assert(got.children =~= want.children);
    } else {
        let c = child_ids(s, pos);
        let pre = s.subrange(0, pos);
        let post = s.subrange(pos + r.len(), s.len() as int);
        assert(s =~= pre + r + post);
        assert forall|i: int| 0 <= i < pre.len() implies #[trigger] pre[i].parent_id != Some(pos) by {
            assert(pre[i] == s[i]);
        }
        assert forall|i: int| 0 <= i < post.len() implies #[trigger] post[i].parent_id != Some(pos) by {
            assert(post[i] == s[pos + r.len() + i]);
        }
        lemma_child_ids_none(pre, pos);
        lemma_child_ids_none(post, pos);
        lemma_child_ids_concat(pre + r, post, pos);
        lemma_child_ids_concat(pre, r, pos);
        lemma_child_ids_concat(seq![row], t, pos);
        assert(seq![row].drop_last() =~= Seq::<DbView>::empty());
        assert(seq![row].last() == row);
        assert(child_ids(seq![row].drop_last(), pos) =~= Seq::<int>::empty());
        assert(row.parent_id != Some(pos));
        assert(child_ids(seq![row], pos) =~= Seq::<int>::empty());
        lemma_child_ids_rev(n.children, 0, k, pos + 1, pos, sid);
        assert(c =~= child_ids(t, pos));
        assert(got.children.len() == k);
        assert forall|m: int| 0 <= m < k implies #[trigger] got.children[m] == want.children[m] by {
            let ci = k - 1 - m;
            let a = save_rev(n.children, ci + 1, k, pos + 1, pos, sid);
            let st = pos + 1 + a.len();
            let rc = save_rows(n.children[ci], st, Some(pos), sid);
            assert(c[m] == st);
            lemma_child_closed(s, n, pos, par, sid, ci);
            lemma_rows_shape(n.children[ci], st, Some(pos), sid);
            assert(rc.len() <= r.len() - 1);
            assert(decreases_to!(n => n.children));
            assert(decreases_to!(n.children => n.children[ci]));
            lemma_rebuilt(s, n.children[ci], st, Some(pos), sid, (fuel - 1) as nat);
        }
        assert(got.children =~= want.children);
    }
}

/// Rebuilding the rows planned for a tree gives back the tree: the stored
/// fields of every node, with each node's children in reverse order (the
/// order in which they were saved).
pub proof fn lemma_save_then_rebuild(t: NodeView, scan_id: i64)
    ensures
        built_tree(save_rows(t, 0, None, scan_id)) == Some(restored(t)),
{
    let s = save_rows(t, 0, None, scan_id);
    lemma_rows_shape(t, 0, None, scan_id);
    assert(positional(s));
    lemma_first_root_zero(s);
    assert(s.subrange(0, s.len() as int) =~= s);
    lemma_rebuilt(s, t, 0, None, scan_id, s.len());
}

} // verus!
