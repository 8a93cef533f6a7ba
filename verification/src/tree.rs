use vstd::prelude::*;
use crate::traversal::{lemma_preorder, parent_earlier};

verus! {

/// An opaque handle naming one node of the tree. Handles are compared by value.
#[derive(Clone, Copy, PartialEq, Eq, Structural, Debug, Hash)]
pub struct Entity(pub usize);

impl Entity {
    /// The handle of the root, the one entity that has no parent.
    pub fn root() -> (r: Entity)
        ensures
            r == Entity(0),
    {
        Entity(0)
    }

    /// The position of this entity's rows in every per-entity table.
    pub fn index(self) -> (r: usize)
        ensures
            r == self.0,
    {
        self.0
    }
}

/// A rooted tree of entities: a parent for every entity but the root, and for
/// every entity the ordered list of its children.
pub struct Tree {
    pub parent: Vec<Option<Entity>>,
    pub children: Vec<Vec<Entity>>,
}

impl Tree {
    /// How many handles the tree has given out, the root's included.
    pub open spec fn size(&self) -> int {
        self.parent@.len() as int
    }

    /// The tree has given out the handle `e`.
    pub open spec fn contains(&self, e: Entity) -> bool {
        e.0 < self.parent@.len()
    }

    /// The parent of `e`; `None` for the root and for a handle that is not in the tree.
    pub open spec fn parent_of(&self, e: Entity) -> Option<Entity> {
        if self.contains(e) {
            self.parent@[e.0 as int]
        } else {
            None
        }
    }

    /// The children of `e` in order; empty for a handle that is not in the tree.
    pub open spec fn children_of(&self, e: Entity) -> Seq<Entity> {
        if e.0 < self.children@.len() {
            self.children@[e.0 as int]@
        } else {
            Seq::empty()
        }
    }

    pub open spec fn child(&self, p: int, k: int) -> Entity {
        self.children@[p]@[k]
    }

    /// The tree is well formed: entity 0 is the root and has no parent; every
    /// parent was created before its children (so no walk towards the root
    /// can cycle); and the child lists hold exactly the entities that name the
    /// list's owner as their parent, each of them once. An entity other than
    /// the root that has no parent was removed from the tree.
    pub open spec fn wf(&self) -> bool {
        &&& 1 <= self.parent@.len() <= usize::MAX
        &&& self.children@.len() == self.parent@.len()
        &&& self.parent@[0] is None
        &&& forall|i: int|
            1 <= i < self.parent@.len() && (#[trigger] self.parent@[i]) is Some
                ==> self.parent@[i].unwrap().0 < i
        &&& forall|p: int, k: int|
            0 <= p < self.children@.len() && 0 <= k < self.children@[p]@.len() ==> {
                let c = #[trigger] self.child(p, k);
                p < c.0 < self.parent@.len() && self.parent@[c.0 as int] == Some(Entity(p as usize))
            }
        &&& forall|p: int, k1: int, k2: int|
            0 <= p < self.children@.len() && 0 <= k1 < k2 < self.children@[p]@.len()
                ==> #[trigger] self.child(p, k1) != #[trigger] self.child(p, k2)
        &&& forall|i: int|
            1 <= i < self.parent@.len() && (#[trigger] self.parent@[i]) is Some ==> self.listed(
                self.parent@[i].unwrap().0 as int,
                Entity(i as usize),
            )
    }

    /// `a` is `x` itself or one of its ancestors.
    pub open spec fn reaches(&self, a: int, x: int) -> bool
        decreases x,
    {
        if x == a {
            true
        } else if self.wf() && 0 < x < self.parent@.len() && self.parent@[x] is Some {
            self.reaches(a, self.parent@[x].unwrap().0 as int)
        } else {
            false
        }
    }

    /// `e` hangs in the tree: the root is `e` or one of its ancestors. An
    /// entity that was removed, and whatever hangs below it, does not.
    pub open spec fn attached(&self, e: Entity) -> bool {
        self.reaches(0, e.0 as int)
    }

    /// `c` stands in the child list of `p`.
    pub open spec fn listed(&self, p: int, c: Entity) -> bool {
        exists|k: int| 0 <= k < self.children@[p]@.len() && #[trigger] self.child(p, k) == c
    }

    /// The entities of the subtree below and including `e`, parents before their
    /// children and siblings in the order of the child list.
    pub open spec fn subtree(&self, e: int) -> Seq<Entity>
        decreases self.parent@.len() - e, 1int, 0int,
    {
        if self.wf() && 0 <= e < self.parent@.len() {
            seq![Entity(e as usize)] + self.subtrees(e, self.children@[e]@.len() as int)
        } else {
            Seq::empty()
        }
    }

    /// The subtrees of the first `k` children of `e`, one after the other.
    pub open spec fn subtrees(&self, e: int, k: int) -> Seq<Entity>
        decreases self.parent@.len() - e, 0int, k,
    {
        if self.wf() && 0 <= e < self.parent@.len() && 0 < k <= self.children@[e]@.len() {
            self.subtrees(e, k - 1) + self.subtree(self.child(e, k - 1).0 as int)
        } else {
            Seq::empty()
        }
    }

    /// The order in which every pass visits the tree: from the root, each
    /// entity before its descendants.
    pub open spec fn preorder(&self) -> Seq<Entity> {
        self.subtree(0)
    }

    /// A tree that holds the root alone.
    pub fn new() -> (t: Tree)
        ensures
            t.wf(),
            t.size() == 1,
            t.children_of(Entity(0)) == Seq::<Entity>::empty(),
    {
        let mut parent: Vec<Option<Entity>> = Vec::new();
        parent.push(None);
        let mut children: Vec<Vec<Entity>> = Vec::new();
        children.push(Vec::new());
        let t = Tree { parent, children };
        assert(t.children_of(Entity(0)) =~= Seq::<Entity>::empty());
        t
    }

    /// Whether the tree is well formed. A tree that was only ever changed
    /// through `add` and `remove` always is; one that was put together from
    /// its fields need not be.
    pub fn is_wf(&self) -> (r: bool)
        ensures
            r == self.wf(),
    {
        let n = self.parent.len();
        if n < 1 || self.children.len() != n {
            return false;
        }
        match self.parent[0] {
            Some(_) => {
                return false;
            },
            None => {},
        }
        let mut i: usize = 1;
        while i < n
            invariant
                1 <= i <= n,
                n == self.parent@.len(),
                n == self.children@.len(),
                forall|j: int|
                    1 <= j < i && (#[trigger] self.parent@[j]) is Some ==> self.parent@[j].unwrap().0
                        < j && self.listed(self.parent@[j].unwrap().0 as int, Entity(j as usize)),
            decreases n - i,
        {
            match self.parent[i] {
                Some(p) => {
                    if p.0 >= i {
                        return false;
                    }
                    let count = self.children[p.0].len();
                    let mut k: usize = 0;
                    let mut found = false;
                    while k < count && !found
                        invariant
                            k <= count,
                            p.0 < n,
                            n == self.children@.len(),
                            count == self.children@[p.0 as int]@.len(),
                            forall|j: int|
                                0 <= j < k && !found ==> #[trigger] self.child(p.0 as int, j)
                                    != Entity(i),
                            found ==> self.listed(p.0 as int, Entity(i)),
                        decreases count - k + (if found { 0int } else { 1int }),
                    {
                        if self.children[p.0][k] == Entity(i) {
                            assert(self.child(p.0 as int, k as int) == Entity(i));
                            found = true;
                        } else {
                            assert(self.child(p.0 as int, k as int) != Entity(i));
                            k += 1;
                        }
                    }
                    if !found {
                        assert(!self.listed(p.0 as int, Entity(i)));
                        return false;
                    }
                },
                None => {},
            }
            i += 1;
        }
        let mut p: usize = 0;
        while p < n
            invariant
                p <= n,
                n == self.parent@.len(),
                n == self.children@.len(),
                forall|q: int, k: int|
                    0 <= q < p && 0 <= k < self.children@[q]@.len() ==> {
                        let c = #[trigger] self.child(q, k);
                        q < c.0 < n && self.parent@[c.0 as int] == Some(Entity(q as usize))
                    },
                forall|q: int, k1: int, k2: int|
                    0 <= q < p && 0 <= k1 < k2 < self.children@[q]@.len() ==> #[trigger] self.child(
                        q,
                        k1,
                    ) != #[trigger] self.child(q, k2),
            decreases n - p,
        {
            let count = self.children[p].len();
            let mut k: usize = 0;
            while k < count
                invariant
                    k <= count,
                    p < n,
                    n == self.parent@.len(),
                    n == self.children@.len(),
                    count == self.children@[p as int]@.len(),
                    forall|j: int|
                        0 <= j < k ==> {
                            let c = #[trigger] self.child(p as int, j);
                            p < c.0 < n && self.parent@[c.0 as int] == Some(Entity(p))
                        },
                    forall|k1: int, k2: int|
                        0 <= k1 < k2 < k ==> #[trigger] self.child(p as int, k1)
                            != #[trigger] self.child(p as int, k2),
                decreases count - k,
            {
                let c = self.children[p][k];
                assert(c == self.child(p as int, k as int));
                if c.0 <= p || c.0 >= n {
                    return false;
                }
                match self.parent[c.0] {
                    Some(q) => {
                        if q.0 != p {
                            return false;
                        }
                    },
                    None => {
                        return false;
                    },
                }
                let mut j: usize = 0;
                while j < k
                    invariant
                        j <= k,
                        k < count,
                        p < n,
                        n == self.children@.len(),
                        count == self.children@[p as int]@.len(),
                        c == self.child(p as int, k as int),
                        forall|a: int| 0 <= a < j ==> #[trigger] self.child(p as int, a) != c,
                    decreases k - j,
                {
                    if self.children[p][j] == c {
                        assert(self.child(p as int, j as int) == self.child(p as int, k as int));
                        return false;
                    }
                    assert(self.child(p as int, j as int) != c);
                    j += 1;
                }
                k += 1;
            }
            p += 1;
        }
        true
    }

    pub fn len(&self) -> (n: usize)
        ensures
            n == self.size(),
    {
        self.parent.len()
    }

    /// Adds a new entity as the last child of `parent`. A handle that the tree
    /// has never given out leaves the tree as it is. Below a parent that was
    /// removed the new entity is as detached as the parent.
    pub fn add(&mut self, parent: Entity) -> (e: Option<Entity>)
        requires
            old(self).wf(),
        ensures
            final(self).wf(),
            !old(self).contains(parent) ==> e is None && *final(self) == *old(self),
            old(self).contains(parent) ==> {
                &&& e == Some(Entity(old(self).size() as usize))
                &&& final(self).size() == old(self).size() + 1
                &&& final(self).parent@ == old(self).parent@.push(Some(parent))
                &&& final(self).children_of(parent) == old(self).children_of(parent).push(e.unwrap())
                &&& final(self).children_of(e.unwrap()) == Seq::<Entity>::empty()
                &&& forall|x: Entity|
                    x != parent && old(self).contains(x) ==> final(self).children_of(x) == old(
                        self,
                    ).children_of(x)
            },
    {
        let n = self.parent.len();
        if parent.0 >= n {
            return None;
        }
        let e = Entity(n);
        self.parent.push(Some(parent));
        self.children.push(Vec::new());
        self.children[parent.0].push(e);
        let grown = self.parent.len();
        proof {
            let old_t = *old(self);
            let new_t = *self;
            let p = parent.0 as int;
            assert(new_t.children@[p]@ == old_t.children@[p]@.push(e));
            assert(new_t.children@[n as int]@ =~= Seq::<Entity>::empty());
            assert forall|q: int, k: int|
                0 <= q < new_t.children@.len() && 0 <= k < new_t.children@[q]@.len() implies {
                let c = #[trigger] new_t.child(q, k);
                q < c.0 < new_t.parent@.len() && new_t.parent@[c.0 as int] == Some(
                    Entity(q as usize),
                )
            } by {
                if q == p && k == old_t.children@[p]@.len() {
                } else {
                    assert(new_t.child(q, k) == old_t.child(q, k));
                }
            }
            assert forall|q: int, k1: int, k2: int|
                0 <= q < new_t.children@.len() && 0 <= k1 < k2 < new_t.children@[q]@.len()
                implies #[trigger] new_t.child(q, k1) != #[trigger] new_t.child(q, k2) by {
                if q == n {
                } else if q == p && k2 == old_t.children@[p]@.len() {
                    assert(new_t.child(q, k1) == old_t.child(q, k1));
                    assert(new_t.child(q, k2) == e);
                } else {
                    assert(new_t.child(q, k1) == old_t.child(q, k1));
                    assert(new_t.child(q, k2) == old_t.child(q, k2));
                }
            }
            assert forall|i: int|
                1 <= i < new_t.parent@.len() && (#[trigger] new_t.parent@[i]) is Some implies new_t.listed(
                new_t.parent@[i].unwrap().0 as int,
                Entity(i as usize),
            ) by {
                if i == n {
                    let k = old_t.children@[p]@.len() as int;
                    assert(new_t.parent@[i] == Some(parent));
                    assert(0 <= k < new_t.children@[p]@.len());
                    assert(new_t.child(p, k) == e);
                } else {
                    let q = old_t.parent@[i].unwrap().0 as int;
                    assert(old_t.listed(q, Entity(i as usize)));
                    let k = choose|k: int|
                        0 <= k < old_t.children@[q]@.len() && #[trigger] old_t.child(q, k)
                            == Entity(i as usize);
                    assert(old_t.parent@[i] == new_t.parent@[i]);
                    if q != p {
                        assert(new_t.children@[q] == old_t.children@[q]);
                    }
                    assert(0 <= k < new_t.children@[q]@.len());
                    assert(new_t.child(q, k) == old_t.child(q, k));
                    assert(new_t.child(new_t.parent@[i].unwrap().0 as int, k) == Entity(i as usize));
                }
            }
        }
        Some(e)
    }

    /// Removes `e` from the tree, with everything below it. The root cannot
    /// be removed, nor an entity that is not in the tree: either leaves the
    /// tree as it is. The handles of what was removed are not given out again.
    pub fn remove(&mut self, e: Entity) -> (removed: bool)
        requires
            old(self).wf(),
        ensures
            final(self).wf(),
            removed == (old(self).parent_of(e) is Some),
            !removed ==> *final(self) == *old(self),
            removed ==> {
                let p = old(self).parent_of(e).unwrap();
                &&& final(self).parent@ == old(self).parent@.update(e.0 as int, None)
                &&& final(self).children@.len() == old(self).children@.len()
                &&& exists|k: int|
                    0 <= k < old(self).children_of(p).len() && old(self).children_of(p)[k] == e
                        && final(self).children_of(p) == old(self).children_of(p).remove(k)
                &&& forall|x: Entity| x != p ==> final(self).children_of(x) == old(self).children_of(x)
            },
    {
        let p = match self.get_parent(e) {
            Some(p) => p,
            None => {
                return false;
            },
        };
        assert(self.parent@[e.0 as int] == Some(p));
        assert(self.listed(p.0 as int, e));
        let count = self.children[p.0].len();
        let mut k: usize = 0;
        while self.children[p.0][k] != e
            invariant
                self.wf(),
                *self == *old(self),
                p.0 < self.children@.len(),
                count == self.children@[p.0 as int]@.len(),
                k < self.children@[p.0 as int]@.len(),
                exists|j: int|
                    k <= j < self.children@[p.0 as int]@.len() && #[trigger] self.child(p.0 as int, j)
                        == e,
            decreases self.children@[p.0 as int]@.len() - k,
        {
            proof {
                let j = choose|j: int|
                    k <= j < self.children@[p.0 as int]@.len() && #[trigger] self.child(
                        p.0 as int,
                        j,
                    ) == e;
                assert(self.child(p.0 as int, k as int) != e);
                assert(j > k);
            }
            k += 1;
        }
        self.children[p.0].remove(k);
        self.parent[e.0] = None;
        proof {
            let old_t = *old(self);
            let new_t = *self;
            let pi = p.0 as int;
            let kk = k as int;
            assert(old_t.child(pi, kk) == e);
            assert(new_t.children@[pi]@ == old_t.children@[pi]@.remove(kk));
            assert forall|q: int, j: int|
                0 <= q < new_t.children@.len() && 0 <= j < new_t.children@[q]@.len() implies {
                let c = #[trigger] new_t.child(q, j);
                q < c.0 < new_t.parent@.len() && new_t.parent@[c.0 as int] == Some(
                    Entity(q as usize),
                )
            } by {
                if q == pi {
                    let j0 = if j < kk {
                        j
                    } else {
                        j + 1
                    };
                    assert(new_t.child(q, j) == old_t.child(q, j0));
                    assert(old_t.child(q, j0) != old_t.child(q, kk));
                } else {
                    assert(new_t.children@[q] == old_t.children@[q]);
                    assert(new_t.child(q, j) == old_t.child(q, j));
                }
            }
            assert forall|q: int, k1: int, k2: int|
                0 <= q < new_t.children@.len() && 0 <= k1 < k2 < new_t.children@[q]@.len()
                implies #[trigger] new_t.child(q, k1) != #[trigger] new_t.child(q, k2) by {
                if q == pi {
                    let a1 = if k1 < kk {
                        k1
                    } else {
                        k1 + 1
                    };
                    let a2 = if k2 < kk {
                        k2
                    } else {
                        k2 + 1
                    };
                    assert(new_t.child(q, k1) == old_t.child(q, a1));
                    assert(new_t.child(q, k2) == old_t.child(q, a2));
                } else {
                    assert(new_t.children@[q] == old_t.children@[q]);
                    assert(new_t.child(q, k1) == old_t.child(q, k1));
                    assert(new_t.child(q, k2) == old_t.child(q, k2));
                }
            }
            assert forall|i: int|
                1 <= i < new_t.parent@.len() && (#[trigger] new_t.parent@[i]) is Some implies new_t.listed(
                new_t.parent@[i].unwrap().0 as int,
                Entity(i as usize),
            ) by {
                assert(i != e.0);
                assert(old_t.parent@[i] == new_t.parent@[i]);
                let q = old_t.parent@[i].unwrap().0 as int;
                assert(old_t.listed(q, Entity(i as usize)));
                let j = choose|j: int|
                    0 <= j < old_t.children@[q]@.len() && #[trigger] old_t.child(q, j) == Entity(
                        i as usize,
                    );
                if q == pi {
                    assert(j != kk);
                    let j1 = if j < kk {
                        j
                    } else {
                        j - 1
                    };
                    assert(new_t.child(q, j1) == old_t.child(q, j));
                } else {
                    assert(new_t.children@[q] == old_t.children@[q]);
                    assert(new_t.child(q, j) == old_t.child(q, j));
                }
            }
            assert forall|x: Entity| x != p implies new_t.children_of(x) == old_t.children_of(
                x,
            ) by {
                if x.0 < old_t.children@.len() {
                    assert(new_t.children@[x.0 as int] == old_t.children@[x.0 as int]);
                }
            }
            assert(old_t.children_of(p)[kk] == e);
        }
        true
    }

    /// The parent of `e`, if it has one.
    pub fn get_parent(&self, e: Entity) -> (r: Option<Entity>)
        ensures
            r == self.parent_of(e),
    {
        if e.0 < self.parent.len() {
            self.parent[e.0]
        } else {
            None
        }
    }

    /// The number of children of `e`.
    pub fn child_count(&self, e: Entity) -> (n: usize)
        ensures
            n == self.children_of(e).len(),
    {
        if e.0 < self.children.len() {
            self.children[e.0].len()
        } else {
            0
        }
    }

    /// The `k`-th child of `e`, if there is one.
    pub fn child_at(&self, e: Entity, k: usize) -> (r: Option<Entity>)
        ensures
            r == (if k < self.children_of(e).len() {
                Some(self.children_of(e)[k as int])
            } else {
                None
            }),
    {
        if e.0 < self.children.len() && k < self.children[e.0].len() {
            Some(self.children[e.0][k])
        } else {
            None
        }
    }

    fn collect(&self, e: usize, out: &mut Vec<Entity>)
        requires
            self.wf(),
            e < self.parent@.len(),
        ensures
            final(out)@ == old(out)@ + self.subtree(e as int),
        decreases self.parent@.len() - e,
    {
        let ghost start = out@;
        out.push(Entity(e));
        let n = self.children[e].len();
        let mut k: usize = 0;
        while k < n
            invariant
                self.wf(),
                e < self.parent@.len(),
                n == self.children@[e as int]@.len(),
                k <= n,
                out@ == start + seq![Entity(e)] + self.subtrees(e as int, k as int),
            decreases n - k,
        {
            let c = self.children[e][k];
            assert(c == self.child(e as int, k as int));
            let ghost before = out@;
            self.collect(c.0, out);
            k += 1;
            proof {
                assert(self.subtrees(e as int, k as int) == self.subtrees(e as int, k - 1)
                    + self.subtree(c.0 as int));
                assert(out@ =~= start + seq![Entity(e)] + self.subtrees(e as int, k as int));
            }
        }
        proof {
            assert(out@ =~= start + self.subtree(e as int));
        }
    }

    /// All entities that hang in the tree, in the order in which the passes
    /// visit them: the root first, every entity exactly once and behind its parent, the
    /// subtrees of siblings one after the other in the order of the child list.
    pub fn traversal(&self) -> (order: Vec<Entity>)
        requires
            self.wf(),
        ensures
            order@ == self.preorder(),
            order@[0] == Entity(0),
            order@.no_duplicates(),
            forall|x: Entity| order@.contains(x) <==> self.attached(x),
            forall|i: int| 1 <= i < order@.len() ==> #[trigger] parent_earlier(self, order@, i),
    {
        let mut out: Vec<Entity> = Vec::new();
        self.collect(0, &mut out);
        proof {
            assert(out@ =~= self.preorder());
            lemma_preorder(self);
        }
        out
    }
}

} // verus!
