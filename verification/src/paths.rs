//! Paths compared as paths: by their components, as `std::path::Path`
//! splits them on `/` (repeated and trailing separators ignored, `.` kept
//! only at the start of a relative path, the root a component of its own).

use vstd::prelude::*;
use crate::work_queue::strings_view;

verus! {

/// The pieces of `s` between `/` separators, in order, empty ones included.
pub open spec fn pieces(s: Seq<char>) -> Seq<Seq<char>>
    decreases s.len(),
{
    if s.len() == 0 {
        seq![seq![]]
    } else {
        let r = pieces(s.drop_last());
        if s.last() == '/' {
            r.push(seq![])
        } else {
            r.update(r.len() - 1, r.last().push(s.last()))
        }
    }
}

/// Whether the piece at `index` is a component: it is not empty, and it is
/// not `.` unless it comes first.
pub open spec fn keeps(piece: Seq<char>, index: int) -> bool {
    piece.len() > 0 && !(piece == seq!['.'] && index > 0)
}

/// The pieces that are components, in order.
pub open spec fn kept(p: Seq<Seq<char>>) -> Seq<Seq<char>>
    decreases p.len(),
{
    if p.len() == 0 {
        seq![]
    } else {
        kept(p.drop_last()) + if keeps(p.last(), p.len() - 1) {
            seq![p.last()]
        } else {
            seq![]
        }
    }
}

/// Whether `s` starts at the root.
pub open spec fn rooted(s: Seq<char>) -> bool {
    s.len() > 0 && s[0] == '/'
}

/// The components of path `s`: the root (written `/`) when it has one,
/// then its named components.
pub open spec fn path_comps(s: Seq<char>) -> Seq<Seq<char>> {
    if rooted(s) {
        seq![seq!['/']] + kept(pieces(s))
    } else {
        kept(pieces(s))
    }
}

/// Two texts name the same path: they have the same components.
pub open spec fn same_path(a: Seq<char>, b: Seq<char>) -> bool {
    path_comps(a) == path_comps(b)
}

/// `path` lies at or below `base`: the components of `base` begin those of
/// `path`.
pub open spec fn path_starts_with(path: Seq<char>, base: Seq<char>) -> bool {
    let p = path_comps(path);
    let b = path_comps(base);
    b.len() <= p.len() && p.take(b.len() as int) == b
}

/// Joins components with `/` between them.
pub open spec fn joined(c: Seq<Seq<char>>) -> Seq<char>
    decreases c.len(),
{
    if c.len() == 0 {
        seq![]
    } else if c.len() == 1 {
        c[0]
    } else {
        joined(c.drop_last()) + seq!['/'] + c.last()
    }
}

/// The canonical text of a path: `/` for the root, then its named
/// components joined with `/`.
pub open spec fn path_key(s: Seq<char>) -> Seq<char> {
    if rooted(s) {
        seq!['/'] + joined(kept(pieces(s)))
    } else {
        joined(kept(pieces(s)))
    }
}

proof fn lemma_pieces_step(s: Seq<char>, i: int, closed: Seq<Seq<char>>, start: int)
    requires
        0 <= start <= i < s.len(),
        pieces(s.take(i)) == closed.push(s.subrange(start, i)),
    ensures
        s[i] == '/' ==> pieces(s.take(i + 1)) == closed.push(s.subrange(start, i)).push(s.subrange(i + 1, i + 1)),
        s[i] != '/' ==> pieces(s.take(i + 1)) == closed.push(s.subrange(start, i + 1)),
{
    assert(s.take(i + 1).drop_last() =~= s.take(i));
    assert(s.take(i + 1).last() == s[i]);
    if s[i] == '/' {
        assert(s.subrange(i + 1, i + 1) =~= Seq::<char>::empty());
    } else {
        let r = closed.push(s.subrange(start, i));
        assert(r.last().push(s[i]) =~= s.subrange(start, i + 1));
        assert(r.update(r.len() - 1, s.subrange(start, i + 1)) =~= closed.push(s.subrange(start, i + 1)));
    }
}

proof fn lemma_kept_push(p: Seq<Seq<char>>, x: Seq<char>)
    ensures
        kept(p.push(x)) == kept(p) + if keeps(x, p.len() as int) {
            seq![x]
        } else {
            seq![]
        },
{
    assert(p.push(x).drop_last() =~= p);
}

/// Closes the piece `s[start..i]`: appends it when it is a component.
fn close_piece(s: &str, start: usize, i: usize, index: usize, out: &mut Vec<String>)
    requires
        start <= i <= s@.len(),
    ensures
        strings_view(final(out)@) == strings_view(old(out)@) + if keeps(s@.subrange(start as int, i as int), index as int) {
            seq![s@.subrange(start as int, i as int)]
        } else {
            seq![]
        },
{
    let ghost piece = s@.subrange(start as int, i as int);
    let ghost before = strings_view(out@);
    let dot = i - start == 1 && s.get_char(start) == '.';
    assert(dot == (piece == seq!['.'])) by {
        assert(piece.len() == i - start);
        if i - start == 1 {
            assert(piece[0] == s@[start as int]);
            if s@[start as int] == '.' {
                assert(piece =~= seq!['.']);
            } else {
                assert(piece[0] != seq!['.'][0]);
            }
        } else {
            assert(piece.len() != seq!['.'].len());
        }
    }
    if i > start && !(dot && index > 0) {
        let text = s.substring_char(start, i).to_string();
        out.push(text);
        assert(strings_view(out@) =~= before + seq![piece]);
    } else {
        assert(strings_view(out@) =~= before + Seq::<Seq<char>>::empty());
    }
}

/// The components of the path `s` (see [`path_comps`]).
pub fn components(s: &str) -> (v: Vec<String>)
    ensures
        strings_view(v@) == path_comps(s@),
{
    let len = s.unicode_len();
    let mut out: Vec<String> = Vec::new();
    let is_rooted = len > 0 && s.get_char(0) == '/';
    if is_rooted {
        proof {
            reveal_strlit("/");
        }
        let root = "/".to_string();
        assert(root@ == seq!['/']);
        out.push(root);
        assert(strings_view(out@) =~= seq![seq!['/']]);
    } else {
        assert(strings_view(out@) =~= Seq::<Seq<char>>::empty());
    }
    let ghost head = strings_view(out@);
    let ghost mut closed: Seq<Seq<char>> = seq![];
    let mut start: usize = 0;
    let mut count: usize = 0;
    assert(s@.take(0) =~= Seq::<char>::empty());
    assert(pieces(s@.take(0)) =~= closed.push(s@.subrange(0, 0)));
    let mut i: usize = 0;
    while i < len
        invariant
            len == s@.len(),
            start <= i <= len,
            count == closed.len(),
            count <= i,
            pieces(s@.take(i as int)) == closed.push(s@.subrange(start as int, i as int)),
            strings_view(out@) == head + kept(closed),
        decreases len - i,
    {
        proof {
            lemma_pieces_step(s@, i as int, closed, start as int);
        }
        if s.get_char(i) == '/' {
            close_piece(s, start, i, count, &mut out);
            proof {
                lemma_kept_push(closed, s@.subrange(start as int, i as int));
                closed = closed.push(s@.subrange(start as int, i as int));
            }
            count = count + 1;
            start = i + 1;
        }
        i = i + 1;
    }
    assert(s@.take(len as int) =~= s@);
    close_piece(s, start, len, count, &mut out);
    proof {
        lemma_kept_push(closed, s@.subrange(start as int, len as int));
        assert(strings_view(out@) =~= path_comps(s@));
    }
    out
}

/// Whether two texts name the same path (see [`same_path`]).
pub fn is_same_path(a: &str, b: &str) -> (r: bool)
    ensures
        r == same_path(a@, b@),
{
    let ca = components(a);
    let cb = components(b);
    if ca.len() != cb.len() {
        return false;
    }
    let n = ca.len();
    for k in 0..n
        invariant
            n == ca@.len(),
            n == cb@.len(),
            strings_view(ca@) == path_comps(a@),
            strings_view(cb@) == path_comps(b@),
            forall|j: int| 0 <= j < k ==> #[trigger] ca@[j]@ == cb@[j]@,
    {
        if !(ca[k] == cb[k]) {
            assert(strings_view(ca@)[k as int] != strings_view(cb@)[k as int]);
            return false;
        }
    }
    assert(strings_view(ca@) =~= strings_view(cb@));
    true
}

/// Whether `path` lies at or below `base` (see [`path_starts_with`]).
pub fn starts_with_path(path: &str, base: &str) -> (r: bool)
    ensures
        r == path_starts_with(path@, base@),
{
    let cp = components(path);
    let cb = components(base);
    if cb.len() > cp.len() {
        return false;
    }
    let n = cb.len();
    for k in 0..n
        invariant
            n == cb@.len(),
            n <= cp@.len(),
            strings_view(cp@) == path_comps(path@),
            strings_view(cb@) == path_comps(base@),
            forall|j: int| 0 <= j < k ==> #[trigger] cp@[j]@ == cb@[j]@,
    {
        if !(cp[k] == cb[k]) {
            assert(strings_view(cp@).take(n as int)[k as int] != strings_view(cb@)[k as int]);
            return false;
        }
    }
    assert(strings_view(cp@).take(n as int) =~= strings_view(cb@));
    true
}

/// The canonical text of the path `s` (see [`path_key`]).
pub fn canonical_path(s: &str) -> (k: String)
    ensures
        k@ == path_key(s@),
{
    let c = components(s);
    let ghost cv = strings_view(c@);
    let mut out = String::new();
    let n = c.len();
    let mut first: usize = 0;
    assert(rooted(s@) ==> cv.len() >= 1);
    let slen = s.unicode_len();
    if n > 0 && slen > 0 && s.get_char(0) == '/' {
        proof {
            reveal_strlit("/");
        }
        out.append("/");
        first = 1;
        assert(rooted(s@));
    } else {
        assert(!rooted(s@));
    }
    proof {
        reveal_strlit("/");
        assert(cv.subrange(first as int, first as int) =~= Seq::<Seq<char>>::empty());
    }
    let ghost lead = out@;
    assert(out@ == lead + joined(cv.subrange(first as int, first as int)));
    for k in first..n
        invariant
            n == c@.len(),
            cv == strings_view(c@),
            cv == path_comps(s@),
            first <= n,
            first == (if rooted(s@) {
                1usize
            } else {
                0usize
            }),
            out@ == lead + joined(cv.subrange(first as int, k as int)),
    {
        proof {
            reveal_strlit("/");
        }
        let ghost part = cv.subrange(first as int, k as int);
        assert(cv.subrange(first as int, k + 1).drop_last() =~= part);
        assert(cv.subrange(first as int, k + 1).last() == c@[k as int]@);
        if k > first {
            out.append("/");
        } else {
            assert(cv.subrange(first as int, k + 1) =~= seq![c@[k as int]@]);
        }
        out.append(c[k].as_str());
    }
    proof {
        let kp = kept(pieces(s@));
        if rooted(s@) {
            assert(cv == seq![seq!['/']] + kp);
            assert(first == 1);
            assert forall|j: int| 0 <= j < kp.len() implies #[trigger] cv.subrange(1, n as int)[j] == kp[j] by {
                assert(cv[1 + j] == kp[j]);
            }
            assert(cv.subrange(first as int, n as int) =~= kp);
        } else {
            assert(cv.subrange(first as int, n as int) =~= kp);
        }
    }
    assert(out@ =~= path_key(s@));
    out
}


/// Every component is a non-empty text without `/`.
pub open spec fn plain_comps(c: Seq<Seq<char>>) -> bool {
    &&& forall|k: int| 0 <= k < c.len() ==> (#[trigger] c[k]).len() > 0
    &&& forall|k: int, j: int| 0 <= k < c.len() && 0 <= j < c[k].len() ==> #[trigger] c[k][j] != '/'
}

proof fn lemma_pieces_len(s: Seq<char>)
    ensures
        pieces(s).len() >= 1,
    decreases s.len(),
{
    if s.len() > 0 {
        lemma_pieces_len(s.drop_last());
    }
}

proof fn lemma_pieces_no_slash(s: Seq<char>)
    ensures
        forall|k: int, j: int|
            0 <= k < pieces(s).len() && 0 <= j < pieces(s)[k].len() ==> #[trigger] pieces(s)[k][j] != '/',
    decreases s.len(),
{
    if s.len() > 0 {
        lemma_pieces_no_slash(s.drop_last());
        lemma_pieces_len(s.drop_last());
        let r = pieces(s.drop_last());
        if s.last() != '/' {
            let q = r.update(r.len() - 1, r.last().push(s.last()));
            assert forall|k: int, j: int| 0 <= k < q.len() && 0 <= j < q[k].len() implies #[trigger] q[k][j] != '/' by {
                if k == r.len() - 1 && j < r.last().len() {
                    assert(q[k][j] == r[k][j]);
                }
            }
        }
    }
}

proof fn lemma_kept_plain(p: Seq<Seq<char>>)
    requires
        forall|k: int, j: int| 0 <= k < p.len() && 0 <= j < p[k].len() ==> #[trigger] p[k][j] != '/',
    ensures
        plain_comps(kept(p)),
    decreases p.len(),
{
    if p.len() > 0 {
        let d = p.drop_last();
        assert forall|k: int, j: int| 0 <= k < d.len() && 0 <= j < d[k].len() implies #[trigger] d[k][j] != '/' by {
            assert(d[k] == p[k]);
        }
        lemma_kept_plain(d);
        let tail = if keeps(p.last(), p.len() - 1) { seq![p.last()] } else { Seq::<Seq<char>>::empty() };
        let c = kept(p);
        assert(c == kept(d) + tail);
        assert forall|k: int| 0 <= k < c.len() implies (#[trigger] c[k]).len() > 0 by {
            if k < kept(d).len() {
                assert(c[k] == kept(d)[k]);
            } else {
                assert(c[k] == p[p.len() - 1]);
            }
        }
        assert forall|k: int, j: int| 0 <= k < c.len() && 0 <= j < c[k].len() implies #[trigger] c[k][j] != '/' by {
            if k < kept(d).len() {
                assert(c[k] == kept(d)[k]);
            } else {
                assert(c[k] == p[p.len() - 1]);
            }
        }
    }
}

proof fn lemma_comps_plain(s: Seq<char>)
    ensures
        plain_comps(kept(pieces(s))),
{
    lemma_pieces_no_slash(s);
    lemma_kept_plain(pieces(s));
}

/// `pieces` of `u`, a `/` and `v` is the pieces of `u`, then those of `v`.
proof fn lemma_pieces_concat(u: Seq<char>, v: Seq<char>)
    ensures
        pieces(u + seq!['/'] + v) == pieces(u) + pieces(v),
    decreases v.len(),
{
    let w = u + seq!['/'] + v;
    if v.len() == 0 {
        assert(w.drop_last() =~= u);
        assert(pieces(u) + pieces(v) =~= pieces(u).push(seq![]));
    } else {
        lemma_pieces_concat(u, v.drop_last());
        lemma_pieces_len(v.drop_last());
        assert(w.drop_last() =~= u + seq!['/'] + v.drop_last());
        assert(w.last() == v.last());
        let a = pieces(u);
        let b = pieces(v.drop_last());
        if v.last() == '/' {
            assert((a + b).push(seq![]) =~= a + b.push(seq![]));
        } else {
            let ab = a + b;
            assert(ab.update(ab.len() - 1, ab.last().push(v.last())) =~= a + b.update(b.len() - 1, b.last().push(v.last())));
        }
    }
}

proof fn lemma_pieces_single(x: Seq<char>)
    requires
        forall|j: int| 0 <= j < x.len() ==> #[trigger] x[j] != '/',
    ensures
        pieces(x) == seq![x],
    decreases x.len(),
{
    if x.len() == 0 {
        assert(x =~= Seq::<char>::empty());
    } else {
        let d = x.drop_last();
        assert forall|j: int| 0 <= j < d.len() implies #[trigger] d[j] != '/' by {
            assert(d[j] == x[j]);
        }
        lemma_pieces_single(d);
        assert(x.last() == x[x.len() - 1]);
        assert(d.push(x.last()) =~= x);
        assert(seq![d].update(0, d.push(x.last())) =~= seq![x]);
    }
}

proof fn lemma_pieces_joined(c: Seq<Seq<char>>)
    requires
        plain_comps(c),
        c.len() >= 1,
    ensures
        pieces(joined(c)) == c,
        joined(c).len() >= 1,
        joined(c)[0] == c[0][0],
    decreases c.len(),
{
    assert(c[0].len() > 0);
    assert(c[0][0] != '/');
    if c.len() == 1 {
        assert forall|j: int| 0 <= j < c[0].len() implies #[trigger] c[0][j] != '/' by {
            assert(c[0][j] != '/');
        }
        lemma_pieces_single(c[0]);
        assert(seq![c[0]] =~= c);
    } else {
        let d = c.drop_last();
        assert forall|k: int| 0 <= k < d.len() implies (#[trigger] d[k]).len() > 0 by {
            assert(d[k] == c[k]);
        }
        assert forall|k: int, j: int| 0 <= k < d.len() && 0 <= j < d[k].len() implies #[trigger] d[k][j] != '/' by {
            assert(d[k] == c[k]);
            assert(c[k][j] != '/');
        }
        lemma_pieces_joined(d);
        let l = c.last();
        assert forall|j: int| 0 <= j < l.len() implies #[trigger] l[j] != '/' by {
            assert(c[c.len() - 1][j] != '/');
        }
        lemma_pieces_single(l);
        lemma_pieces_concat(joined(d), l);
        assert(d + seq![l] =~= c);
        assert(joined(c)[0] == joined(d)[0]);
    }
}

proof fn lemma_joined_injective(a: Seq<Seq<char>>, b: Seq<Seq<char>>)
    requires
        plain_comps(a),
        plain_comps(b),
        joined(a) == joined(b),
    ensures
        a == b,
{
    if a.len() == 0 && b.len() == 0 {
        assert(a =~= b);
    } else if a.len() == 0 {
        lemma_pieces_joined(b);
    } else if b.len() == 0 {
        lemma_pieces_joined(a);
    } else {
        lemma_pieces_joined(a);
        lemma_pieces_joined(b);
    }
}

/// Two texts have the same canonical text exactly when they name the same
/// path: the canonical text loses nothing of a path's components.
pub proof fn lemma_path_key_exact(a: Seq<char>, b: Seq<char>)
    ensures
        (path_key(a) == path_key(b)) == same_path(a, b),
{
    let ka = kept(pieces(a));
    let kb = kept(pieces(b));
    lemma_comps_plain(a);
    lemma_comps_plain(b);
    if ka.len() > 0 {
        lemma_pieces_joined(ka);
    }
    if kb.len() > 0 {
        lemma_pieces_joined(kb);
    }
    let root: Seq<Seq<char>> = seq![seq!['/']];
    if rooted(a) == rooted(b) {
        if rooted(a) {
            if path_key(a) == path_key(b) {
                assert(joined(ka) =~= path_key(a).drop_first());
                assert(joined(kb) =~= path_key(b).drop_first());
                lemma_joined_injective(ka, kb);
            }
            if same_path(a, b) {
                assert(ka =~= path_comps(a).drop_first());
                assert(kb =~= path_comps(b).drop_first());
            }
        } else if path_key(a) == path_key(b) {
            lemma_joined_injective(ka, kb);
        }
    } else {
        // One is rooted and the other is not: the keys differ in their
        // first character, and the components in their first one.
        let (r, u, kr, ku) = if rooted(a) { (a, b, ka, kb) } else { (b, a, kb, ka) };
        assert(path_key(r)[0] == '/');
        if ku.len() > 0 {
            assert(ku[0].len() > 0);
            assert(path_key(u)[0] == ku[0][0]);
            assert(ku[0][0] != '/');
            assert(path_comps(u)[0] != path_comps(r)[0]) by {
                assert(path_comps(r)[0] == seq!['/']);
                assert(path_comps(u)[0] == ku[0]);
                if ku[0] == seq!['/'] {
                    assert(ku[0][0] == '/');
                }
            }
        } else {
            assert(path_key(u).len() == 0);
            assert(path_comps(u).len() == 0);
            assert(path_comps(r).len() >= 1);
        }
        assert(path_key(a) != path_key(b));
        assert(!same_path(a, b));
    }
}

} // verus!
