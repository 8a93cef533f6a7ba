use vstd::prelude::*;
use crate::tree::{Entity, Tree};

verus! {

/// `a` is `x` itself or one of its ancestors.
pub open spec fn reaches(t: &Tree, a: int, x: int) -> bool {
    t.reaches(a, x)
}

/// `x` lies below one of the first `k` children of `e`, or is one of them.
pub open spec fn below(t: &Tree, e: int, k: int, x: Entity) -> bool {
    exists|m: int|
        0 <= m < k && m < t.children@[e]@.len() && reaches(
            t,
            (#[trigger] t.child(e, m)).0 as int,
            x.0 as int,
        )
}

/// The parent of the entity at position `i` of `s` stands at an earlier position.
pub open spec fn parent_earlier(t: &Tree, s: Seq<Entity>, i: int) -> bool {
    exists|j: int| 0 <= j < i && t.parent_of(s[i]) == Some(#[trigger] s[j])
}

/// `s` lists entities of the subtree of `e`, beginning with `e`, none of them
/// twice and each behind its parent.
pub open spec fn ordered_subtree(t: &Tree, e: int, s: Seq<Entity>) -> bool {
    &&& s.len() >= 1
    &&& s[0] == Entity(e as usize)
    &&& forall|i: int| 0 <= i < s.len() ==> reaches(t, e, (#[trigger] s[i]).0 as int)
    &&& forall|i: int| 1 <= i < s.len() ==> #[trigger] parent_earlier(t, s, i)
    &&& s.no_duplicates()
}

/// `s` lists entities below the first `k` children of `e`, none of them twice
/// and each behind its parent unless that parent is `e`.
pub open spec fn ordered_forest(t: &Tree, e: int, k: int, s: Seq<Entity>) -> bool {
    &&& forall|i: int| 0 <= i < s.len() ==> below(t, e, k, #[trigger] s[i])
    &&& forall|i: int|
        0 <= i < s.len() ==> (t.parent_of(s[i]) == Some(Entity(e as usize)) || #[trigger] parent_earlier(
            t,
            s,
            i,
        ))
    &&& s.no_duplicates()
}

/// An ancestor was created before its descendants.
pub proof fn lemma_reaches_le(t: &Tree, a: int, x: int)
    requires
        reaches(t, a, x),
    ensures
        a <= x,
    decreases x,
{
    if x != a {
        lemma_reaches_le(t, a, t.parent@[x].unwrap().0 as int);
    }
}

/// An ancestor of an ancestor is an ancestor.
pub proof fn lemma_reaches_trans(t: &Tree, a: int, b: int, x: int)
    requires
        reaches(t, a, b),
        reaches(t, b, x),
    ensures
        reaches(t, a, x),
    decreases x,
{
    if x != b {
        lemma_reaches_trans(t, a, b, t.parent@[x].unwrap().0 as int);
        lemma_reaches_le(t, b, t.parent@[x].unwrap().0 as int);
        lemma_reaches_le(t, a, b);
    }
}

proof fn lemma_reaches_bounds(t: &Tree, a: int, x: int)
    requires
        reaches(t, a, x),
        0 <= a < t.parent@.len(),
    ensures
        a <= x < t.parent@.len(),
    decreases x,
{
    if x != a {
        lemma_reaches_bounds(t, a, t.parent@[x].unwrap().0 as int);
    }
}

proof fn lemma_reaches_from_parent(t: &Tree, e: int, c: int, y: int)
    requires
        t.wf(),
        0 < c < t.parent@.len(),
        t.parent@[c] == Some(Entity(e as usize)),
        0 <= e < t.parent@.len(),
        reaches(t, c, y),
    ensures
        reaches(t, e, y),
    decreases y,
{
    assert(t.parent@[c].unwrap().0 < c);
    if y == c {
        assert(reaches(t, e, e));
    } else {
        let py = t.parent@[y].unwrap().0 as int;
        lemma_reaches_bounds(t, c, py);
        lemma_reaches_from_parent(t, e, c, py);
    }
}

proof fn lemma_disjoint(t: &Tree, c1: int, c2: int, x: int)
    requires
        t.wf(),
        0 < c1 < t.parent@.len(),
        0 < c2 < t.parent@.len(),
        c1 != c2,
        t.parent@[c1] is Some,
        t.parent@[c1] == t.parent@[c2],
        reaches(t, c1, x),
    ensures
        !reaches(t, c2, x),
    decreases x,
{
    if reaches(t, c2, x) {
        assert(t.parent@[c1].unwrap().0 < c1);
        assert(t.parent@[c2].unwrap().0 < c2);
        if x == c1 {
            lemma_reaches_bounds(t, c2, t.parent@[c1].unwrap().0 as int);
        } else if x == c2 {
            lemma_reaches_bounds(t, c1, t.parent@[c2].unwrap().0 as int);
        } else {
            lemma_disjoint(t, c1, c2, t.parent@[x].unwrap().0 as int);
        }
    }
}

proof fn lemma_subtree(t: &Tree, e: int)
    requires
        t.wf(),
        0 <= e < t.parent@.len(),
    ensures
        ordered_subtree(t, e, t.subtree(e)),
    decreases t.parent@.len() - e, 1int, 0int,
{
    let k = t.children@[e]@.len() as int;
    let rest = t.subtrees(e, k);
    let s = t.subtree(e);
    lemma_subtrees(t, e, k);
    assert(s == seq![Entity(e as usize)] + rest);
    assert(s[0] == Entity(e as usize));
    assert forall|i: int| 0 <= i < s.len() implies reaches(t, e, (#[trigger] s[i]).0 as int) by {
        if i >= 1 {
            assert(s[i] == rest[i - 1]);
            assert(below(t, e, k, rest[i - 1]));
            let m = choose|m: int|
                0 <= m < k && m < t.children@[e]@.len() && reaches(
                    t,
                    (#[trigger] t.child(e, m)).0 as int,
                    rest[i - 1].0 as int,
                );
            lemma_reaches_from_parent(t, e, t.child(e, m).0 as int, s[i].0 as int);
        }
    }
    assert forall|i: int| 1 <= i < s.len() implies #[trigger] parent_earlier(t, s, i) by {
        assert(s[i] == rest[i - 1]);
        if t.parent_of(rest[i - 1]) == Some(Entity(e as usize)) {
            assert(t.parent_of(s[i]) == Some(s[0]));
        } else {
            assert(parent_earlier(t, rest, i - 1));
            let j = choose|j: int|
                0 <= j < i - 1 && t.parent_of(rest[i - 1]) == Some(#[trigger] rest[j]);
            assert(s[j + 1] == rest[j]);
        }
    }
    assert forall|i: int, j: int| 0 <= i < s.len() && 0 <= j < s.len() && i != j implies s[i]
        != s[j] by {
        if i >= 1 && j >= 1 {
            assert(s[i] == rest[i - 1] && s[j] == rest[j - 1]);
        } else {
            let o = if i >= 1 {
                i
            } else {
                j
            };
            assert(s[o] == rest[o - 1]);
            assert(below(t, e, k, rest[o - 1]));
            let m = choose|m: int|
                0 <= m < k && m < t.children@[e]@.len() && reaches(
                    t,
                    (#[trigger] t.child(e, m)).0 as int,
                    rest[o - 1].0 as int,
                );
            lemma_reaches_bounds(t, t.child(e, m).0 as int, s[o].0 as int);
        }
    }
}

proof fn lemma_subtrees(t: &Tree, e: int, k: int)
    requires
        t.wf(),
        0 <= e < t.parent@.len(),
        0 <= k <= t.children@[e]@.len(),
    ensures
        ordered_forest(t, e, k, t.subtrees(e, k)),
    decreases t.parent@.len() - e, 0int, k,
{
    let s = t.subtrees(e, k);
    if k > 0 {
        let c = t.child(e, k - 1);
        let prev = t.subtrees(e, k - 1);
        let sub = t.subtree(c.0 as int);
        lemma_subtrees(t, e, k - 1);
        lemma_subtree(t, c.0 as int);
        assert(s == prev + sub);
        let lp = prev.len() as int;
        assert forall|i: int| 0 <= i < s.len() implies below(t, e, k, #[trigger] s[i]) by {
            if i < lp {
                assert(s[i] == prev[i]);
                assert(below(t, e, k - 1, prev[i]));
                let m = choose|m: int|
                    0 <= m < k - 1 && m < t.children@[e]@.len() && reaches(
                        t,
                        (#[trigger] t.child(e, m)).0 as int,
                        prev[i].0 as int,
                    );
                assert(reaches(t, t.child(e, m).0 as int, s[i].0 as int));
            } else {
                assert(s[i] == sub[i - lp]);
                assert(reaches(t, t.child(e, k - 1).0 as int, s[i].0 as int));
            }
        }
        assert forall|i: int| 0 <= i < s.len() implies (t.parent_of(s[i]) == Some(
            Entity(e as usize),
        ) || #[trigger] parent_earlier(t, s, i)) by {
            if i < lp {
                assert(s[i] == prev[i]);
                if t.parent_of(prev[i]) != Some(Entity(e as usize)) {
                    assert(parent_earlier(t, prev, i));
                    let j = choose|j: int|
                        0 <= j < i && t.parent_of(prev[i]) == Some(#[trigger] prev[j]);
                    assert(s[j] == prev[j]);
                }
            } else if i == lp {
                assert(s[i] == sub[0]);
            } else {
                assert(s[i] == sub[i - lp]);
                assert(parent_earlier(t, sub, i - lp));
                let j = choose|j: int|
                    0 <= j < i - lp && t.parent_of(sub[i - lp]) == Some(#[trigger] sub[j]);
                assert(s[j + lp] == sub[j]);
            }
        }
        assert forall|i: int, j: int| 0 <= i < s.len() && 0 <= j < s.len() && i != j implies s[i]
            != s[j] by {
            if i < lp && j < lp {
                assert(s[i] == prev[i] && s[j] == prev[j]);
            } else if i >= lp && j >= lp {
                assert(s[i] == sub[i - lp] && s[j] == sub[j - lp]);
            } else {
                let a = if i < lp {
                    i
                } else {
                    j
                };
                let b = if i < lp {
                    j
                } else {
                    i
                };
                assert(s[a] == prev[a] && s[b] == sub[b - lp]);
                assert(below(t, e, k - 1, prev[a]));
                let m = choose|m: int|
                    0 <= m < k - 1 && m < t.children@[e]@.len() && reaches(
                        t,
                        (#[trigger] t.child(e, m)).0 as int,
                        prev[a].0 as int,
                    );
                assert(t.child(e, m) != t.child(e, k - 1));
                assert(reaches(t, c.0 as int, sub[b - lp].0 as int));
                if s[a] == s[b] {
                    lemma_disjoint(t, t.child(e, m).0 as int, c.0 as int, s[a].0 as int);
                }
            }
        }
    }
}

/// Whatever stands in the subtree of an entity stands in the traversal of the
/// whole tree.
proof fn lemma_within(t: &Tree, x: int, y: Entity)
    requires
        t.wf(),
        0 <= x < t.parent@.len(),
        reaches(t, 0, x),
        t.subtree(x).contains(y),
    ensures
        t.preorder().contains(y),
    decreases x,
{
    if x > 0 {
        let p = t.parent@[x].unwrap().0 as int;
        assert(t.listed(p, Entity(x as usize)));
        let m = choose|m: int|
            0 <= m < t.children@[p]@.len() && #[trigger] t.child(p, m) == Entity(x as usize);
        lemma_in_forest(t, p, t.children@[p]@.len() as int, m, y);
        let rest = t.subtrees(p, t.children@[p]@.len() as int);
        let i = choose|i: int| 0 <= i < rest.len() && rest[i] == y;
        assert(t.subtree(p)[i + 1] == y);
        lemma_within(t, p, y);
    }
}

proof fn lemma_in_forest(t: &Tree, e: int, k: int, m: int, y: Entity)
    requires
        t.wf(),
        0 <= e < t.parent@.len(),
        0 <= m < k <= t.children@[e]@.len(),
        t.subtree(t.child(e, m).0 as int).contains(y),
    ensures
        t.subtrees(e, k).contains(y),
    decreases k,
{
    let prev = t.subtrees(e, k - 1);
    let sub = t.subtree(t.child(e, k - 1).0 as int);
    assert(t.subtrees(e, k) == prev + sub);
    if m == k - 1 {
        let i = choose|i: int| 0 <= i < sub.len() && sub[i] == y;
        assert((prev + sub)[prev.len() + i] == y);
    } else {
        lemma_in_forest(t, e, k - 1, m, y);
        let i = choose|i: int| 0 <= i < prev.len() && prev[i] == y;
        assert((prev + sub)[i] == y);
    }
}

/// The traversal begins with the root and holds every entity that hangs in
/// the tree exactly once, each behind its parent; it holds nothing else.
pub proof fn lemma_preorder(t: &Tree)
    requires
        t.wf(),
    ensures
        t.preorder().len() >= 1,
        t.preorder()[0] == Entity(0),
        t.preorder().no_duplicates(),
        forall|x: Entity| t.preorder().contains(x) <==> t.attached(x),
        forall|i: int| 1 <= i < t.preorder().len() ==> #[trigger] parent_earlier(t, t.preorder(), i),
{
    lemma_subtree(t, 0);
    let s = t.preorder();
    assert forall|x: Entity| s.contains(x) <==> t.attached(x) by {
        if s.contains(x) {
            let i = choose|i: int| 0 <= i < s.len() && s[i] == x;
            assert(reaches(t, 0, s[i].0 as int));
        }
        if t.attached(x) {
            lemma_reaches_bounds(t, 0, x.0 as int);
            lemma_subtree(t, x.0 as int);
            assert(t.subtree(x.0 as int)[0] == x);
            lemma_within(t, x.0 as int, x);
        }
    }
}

} // verus!
