use vstd::prelude::*;
use crate::cache::{at, stored};
use crate::style::Style;
use crate::style_system::{
    draw_levels, draw_order, inherit_pass, inherited_display, inherited_visibility, inherited_z,
    inserted_by_z, level_rule, own_z, styled,
};
use crate::traversal::{lemma_preorder, lemma_reaches_trans, parent_earlier, reaches};
use crate::value::{Display, Visibility};
use crate::tree::{Entity, Tree};

verus! {

/// What `rule` gives an entity depends on the table only through the entry
/// of the entity's parent.
pub open spec fn reads_parent_only<T>(rule: spec_fn(Seq<T>, Entity, Entity) -> T, fill: T) -> bool {
    forall|a: Seq<T>, b: Seq<T>, e: Entity, p: Entity|
        #![trigger rule(a, e, p), rule(b, e, p)]
        at(a, p.0 as int, fill) == at(b, p.0 as int, fill) ==> rule(a, e, p) == rule(b, e, p)
}

/// `x` stands before `y` in `s`.
pub open spec fn before_in(s: Seq<Entity>, x: Entity, y: Entity) -> bool {
    exists|i: int, j: int| 0 <= i < j < s.len() && #[trigger] s[i] == x && #[trigger] s[j] == y
}

/// An entity that is visited, and after whose visit neither itself nor its
/// parent is visited again, ends with what the rule makes of the final table.
pub proof fn lemma_pass_settled<T>(
    tree: &Tree,
    table: Seq<T>,
    order: Seq<Entity>,
    fill: T,
    rule: spec_fn(Seq<T>, Entity, Entity) -> T,
    i: int,
    p: Entity,
)
    requires
        tree.wf(),
        0 <= i < order.len(),
        tree.parent_of(order[i]) == Some(p),
        reads_parent_only(rule, fill),
        forall|k: int| i < k < order.len() ==> order[k] != order[i] && order[k] != p,
    ensures
        at(inherit_pass(tree, table, order, fill, rule), order[i].0 as int, fill) == rule(
            inherit_pass(tree, table, order, fill, rule),
            order[i],
            p,
        ),
    decreases order.len(),
{
    let e = order[i];
    let shorter = order.drop_last();
    let before = inherit_pass(tree, table, shorter, fill, rule);
    let after = inherit_pass(tree, table, order, fill, rule);
    let last = order.last();
    assert(tree.parent@[e.0 as int] == Some(p));
    assert(p.0 < e.0);
    if i == order.len() - 1 {
        assert(after == stored(before, e.0 as int, rule(before, e, p), fill));
        assert(at(after, p.0 as int, fill) == at(before, p.0 as int, fill));
        assert(rule(after, e, p) == rule(before, e, p));
    } else {
        assert(shorter[i] == e);
        assert forall|k: int| i < k < shorter.len() implies shorter[k] != shorter[i] && shorter[k]
            != p by {
            assert(shorter[k] == order[k]);
        }
        lemma_pass_settled(tree, table, shorter, fill, rule, i, p);
        assert(last != e && last != p);
        assert(at(after, e.0 as int, fill) == at(before, e.0 as int, fill));
        assert(at(after, p.0 as int, fill) == at(before, p.0 as int, fill));
        assert(rule(after, e, p) == rule(before, e, p));
    }
}

/// An entity that is never visited, or has no parent, keeps what it has.
pub proof fn lemma_pass_untouched<T>(
    tree: &Tree,
    table: Seq<T>,
    order: Seq<Entity>,
    fill: T,
    rule: spec_fn(Seq<T>, Entity, Entity) -> T,
    x: Entity,
)
    requires
        tree.parent_of(x) is None || !order.contains(x),
    ensures
        at(inherit_pass(tree, table, order, fill, rule), x.0 as int, fill) == at(
            table,
            x.0 as int,
            fill,
        ),
    decreases order.len(),
{
    if order.len() > 0 {
        let shorter = order.drop_last();
        if shorter.contains(x) {
            let k = choose|k: int| 0 <= k < shorter.len() && shorter[k] == x;
            assert(order[k] == x);
        }
        lemma_pass_untouched(tree, table, shorter, fill, rule, x);
        if order.last() == x {
            assert(order[order.len() - 1] == x);
        }
    }
}

/// After a pass over the tree in traversal order every entity but the root
/// holds what the rule makes of the final table, and everything else is as
/// it was.
pub proof fn lemma_traversal_pass<T>(
    tree: &Tree,
    table: Seq<T>,
    fill: T,
    rule: spec_fn(Seq<T>, Entity, Entity) -> T,
    e: Entity,
)
    requires
        tree.wf(),
        reads_parent_only(rule, fill),
    ensures
        styled(tree, e) ==> at(
            inherit_pass(tree, table, tree.preorder(), fill, rule),
            e.0 as int,
            fill,
        ) == rule(
            inherit_pass(tree, table, tree.preorder(), fill, rule),
            e,
            tree.parent_of(e).unwrap(),
        ),
        !styled(tree, e) ==> at(
            inherit_pass(tree, table, tree.preorder(), fill, rule),
            e.0 as int,
            fill,
        ) == at(table, e.0 as int, fill),
{
    let order = tree.preorder();
    lemma_preorder(tree);
    if styled(tree, e) {
        let p = tree.parent_of(e).unwrap();
        assert(tree.parent@[e.0 as int] is Some);
        let i = choose|i: int| 0 <= i < order.len() && order[i] == e;
        assert(parent_earlier(tree, order, i));
        let j = choose|j: int| 0 <= j < i && tree.parent_of(order[i]) == Some(#[trigger] order[j]);
        lemma_pass_settled(tree, table, order, fill, rule, i, p);
    } else {
        lemma_pass_untouched(tree, table, order, fill, rule, e);
    }
}

pub open spec fn key(z: Seq<i32>, e: Entity) -> i32 {
    at(z, e.0 as int, 0i32)
}

proof fn lemma_insert_shape(z: Seq<i32>, s: Seq<Entity>, e: Entity) -> (j: int)
    ensures
        0 <= j <= s.len(),
        inserted_by_z(z, s, e) == s.insert(j, e),
        forall|k: int| j <= k < s.len() ==> key(z, s[k]) > key(z, e),
        j > 0 ==> key(z, s[j - 1]) <= key(z, e),
    decreases s.len(),
{
    if s.len() == 0 {
        assert(seq![e] =~= s.insert(0, e));
        0
    } else if key(z, s.last()) <= key(z, e) {
        assert(s.push(e) =~= s.insert(s.len() as int, e));
        s.len() as int
    } else {
        let j = lemma_insert_shape(z, s.drop_last(), e);
        assert(s.drop_last().insert(j, e).push(s.last()) =~= s.insert(j, e));
        assert forall|k: int| j <= k < s.len() implies key(z, s[k]) > key(z, e) by {
            if k < s.len() - 1 {
                assert(s.drop_last()[k] == s[k]);
            }
        }
        j
    }
}

/// `s` is in ascending order of z-index.
pub open spec fn ascending(z: Seq<i32>, s: Seq<Entity>) -> bool {
    forall|a: int, b: int| 0 <= a < b < s.len() ==> key(z, #[trigger] s[a]) <= key(z, #[trigger] s[b])
}

/// The draw order is in ascending order of z-index.
pub proof fn lemma_draw_order_ascending(z: Seq<i32>, order: Seq<Entity>)
    ensures
        ascending(z, draw_order(z, order)),
    decreases order.len(),
{
    let d = draw_order(z, order);
    if order.len() > 0 {
        let d0 = draw_order(z, order.drop_last());
        let e = order.last();
        lemma_draw_order_ascending(z, order.drop_last());
        let j = lemma_insert_shape(z, d0, e);
        assert(d == d0.insert(j, e));
        assert forall|a: int, b: int| 0 <= a < b < d.len() implies key(z, #[trigger] d[a]) <= key(
            z,
            #[trigger] d[b],
        ) by {
            let a0 = if a < j {
                a
            } else {
                a - 1
            };
            let b0 = if b < j {
                b
            } else {
                b - 1
            };
            if a == j {
                assert(d[b] == d0[b0]);
            } else if b == j {
                assert(d[a] == d0[a0]);
                if a0 < j - 1 {
                    assert(key(z, d0[a0]) <= key(z, d0[j - 1]));
                }
            } else {
                assert(d[a] == d0[a0] && d[b] == d0[b0]);
            }
        }
    }
}

/// The draw order is a rearrangement of the order it was made from.
pub proof fn lemma_draw_order_permutes(z: Seq<i32>, order: Seq<Entity>)
    ensures
        draw_order(z, order).to_multiset() == order.to_multiset(),
    decreases order.len(),
{
    if order.len() > 0 {
        let shorter = order.drop_last();
        let e = order.last();
        let d0 = draw_order(z, shorter);
        lemma_draw_order_permutes(z, shorter);
        let j = lemma_insert_shape(z, d0, e);
        vstd::seq_lib::to_multiset_insert(d0, j, e);
        vstd::seq_lib::to_multiset_build(shorter, e);
        assert(shorter.push(e) =~= order);
    } else {
        assert(draw_order(z, order) =~= order);
    }
}

/// The draw order holds the same entities as the order it was made from,
/// each once, and an entity that stood before another whose z-index is not
/// smaller still stands before it.
pub proof fn lemma_draw_order(z: Seq<i32>, order: Seq<Entity>)
    requires
        order.no_duplicates(),
    ensures
        draw_order(z, order).len() == order.len(),
        draw_order(z, order).no_duplicates(),
        forall|x: Entity| draw_order(z, order).contains(x) <==> order.contains(x),
        forall|x: Entity, y: Entity|
            #![trigger before_in(order, x, y)]
            before_in(order, x, y) && key(z, x) <= key(z, y) ==> before_in(
                draw_order(z, order),
                x,
                y,
            ),
    decreases order.len(),
{
    let d = draw_order(z, order);
    if order.len() > 0 {
        let shorter = order.drop_last();
        let e = order.last();
        let n = shorter.len() as int;
        let d0 = draw_order(z, shorter);
        lemma_draw_order(z, shorter);
        let j = lemma_insert_shape(z, d0, e);
        assert(d == d0.insert(j, e));
        assert(d.len() == d0.len() + 1);
        assert(d[j] == e);
        assert forall|k: int| 0 <= k < j implies d[k] == d0[k] by {}
        assert forall|k: int| j < k < d.len() implies d[k] == d0[k - 1] by {}
        assert(!d0.contains(e)) by {
            if d0.contains(e) {
                assert(shorter.contains(e));
                let k = choose|k: int| 0 <= k < shorter.len() && shorter[k] == e;
                assert(order[k] == e && order[n] == e);
            }
        }
        assert forall|x: Entity| d.contains(x) <==> order.contains(x) by {
            if d.contains(x) {
                let k = choose|k: int| 0 <= k < d.len() && d[k] == x;
                if k == j {
                    assert(order[n] == x);
                } else {
                    let k0 = if k < j {
                        k
                    } else {
                        k - 1
                    };
                    assert(d0[k0] == x);
                    assert(shorter.contains(x));
                    let m = choose|m: int| 0 <= m < shorter.len() && shorter[m] == x;
                    assert(order[m] == x);
                }
            }
            if order.contains(x) {
                let m = choose|m: int| 0 <= m < order.len() && order[m] == x;
                if m == n {
                    assert(d[j] == x);
                } else {
                    assert(shorter[m] == x);
                    assert(shorter.contains(x));
                    assert(d0.contains(x));
                    let k0 = choose|k0: int| 0 <= k0 < d0.len() && d0[k0] == x;
                    if k0 < j {
                        assert(d[k0] == x);
                    } else {
                        assert(d[k0 + 1] == x);
                    }
                }
            }
        }
        assert forall|a: int, b: int| 0 <= a < d.len() && 0 <= b < d.len() && a != b implies d[a]
            != d[b] by {
            if a != j && b != j {
                let a0 = if a < j {
                    a
                } else {
                    a - 1
                };
                let b0 = if b < j {
                    b
                } else {
                    b - 1
                };
                assert(d[a] == d0[a0] && d[b] == d0[b0]);
            } else {
                let o = if a == j {
                    b
                } else {
                    a
                };
                let o0 = if o < j {
                    o
                } else {
                    o - 1
                };
                assert(d[o] == d0[o0]);
            }
        }
        assert forall|x: Entity, y: Entity|
            #![trigger before_in(order, x, y)]
            before_in(order, x, y) && key(z, x) <= key(z, y) implies before_in(d, x, y) by {
            let (a, b) = choose|a: int, b: int|
                0 <= a < b < order.len() && #[trigger] order[a] == x && #[trigger] order[b] == y;
            assert(shorter[a] == x);
            if b < n {
                assert(shorter[b] == y);
                assert(before_in(shorter, x, y));
                assert(before_in(d0, x, y));
                let (a0, b0) = choose|a0: int, b0: int|
                    0 <= a0 < b0 < d0.len() && #[trigger] d0[a0] == x && #[trigger] d0[b0] == y;
                let a1 = if a0 < j {
                    a0
                } else {
                    a0 + 1
                };
                let b1 = if b0 < j {
                    b0
                } else {
                    b0 + 1
                };
                assert(d[a1] == x && d[b1] == y);
            } else {
                assert(y == e);
                assert(shorter.contains(x));
                assert(d0.contains(x));
                let a0 = choose|a0: int| 0 <= a0 < d0.len() && d0[a0] == x;
                assert(a0 < j);
                assert(d[a0] == x && d[j] == y);
            }
        }
    }
}

/// After a pass over the tree in the order of the keys `z`, every entity but
/// the root whose key is not smaller than its parent's holds what the rule
/// makes of the final table; the root and whatever is outside the tree are
/// as they were.
pub proof fn lemma_draw_pass<T>(
    tree: &Tree,
    z: Seq<i32>,
    table: Seq<T>,
    fill: T,
    rule: spec_fn(Seq<T>, Entity, Entity) -> T,
    e: Entity,
)
    requires
        tree.wf(),
        reads_parent_only(rule, fill),
    ensures
        styled(tree, e) && key(z, tree.parent_of(e).unwrap()) <= key(z, e) ==> at(
            inherit_pass(tree, table, draw_order(z, tree.preorder()), fill, rule),
            e.0 as int,
            fill,
        ) == rule(
            inherit_pass(tree, table, draw_order(z, tree.preorder()), fill, rule),
            e,
            tree.parent_of(e).unwrap(),
        ),
        !styled(tree, e) ==> at(
            inherit_pass(tree, table, draw_order(z, tree.preorder()), fill, rule),
            e.0 as int,
            fill,
        ) == at(table, e.0 as int, fill),
{
    let order = tree.preorder();
    let d = draw_order(z, order);
    lemma_preorder(tree);
    lemma_draw_order(z, order);
    if styled(tree, e) {
        if key(z, tree.parent_of(e).unwrap()) <= key(z, e) {
            let p = tree.parent_of(e).unwrap();
            assert(tree.parent@[e.0 as int] is Some);
            let i = choose|i: int| 0 <= i < order.len() && order[i] == e;
            assert(parent_earlier(tree, order, i));
            let j = choose|j: int|
                0 <= j < i && tree.parent_of(order[i]) == Some(#[trigger] order[j]);
            assert(order[j] == p && order[i] == e);
            assert(before_in(order, p, e));
            assert(before_in(d, p, e));
            let (a, b) = choose|a: int, b: int|
                0 <= a < b < d.len() && #[trigger] d[a] == p && #[trigger] d[b] == e;
            lemma_pass_settled(tree, table, d, fill, rule, b, p);
        }
    } else {
        if tree.parent_of(e) is Some {
            assert(!order.contains(e));
            assert(!d.contains(e));
        }
        lemma_pass_untouched(tree, table, d, fill, rule, e);
    }
}

proof fn lemma_inserted_same_keys(z1: Seq<i32>, z2: Seq<i32>, d: Seq<Entity>, e: Entity)
    requires
        forall|i: int| 0 <= i < d.len() ==> key(z1, #[trigger] d[i]) == key(z2, d[i]),
        key(z1, e) == key(z2, e),
    ensures
        inserted_by_z(z1, d, e) == inserted_by_z(z2, d, e),
    decreases d.len(),
{
    if d.len() > 0 {
        assert(key(z1, d[d.len() - 1]) == key(z2, d[d.len() - 1]));
        assert forall|i: int| 0 <= i < d.drop_last().len() implies key(
            z1,
            #[trigger] d.drop_last()[i],
        ) == key(z2, d.drop_last()[i]) by {
            assert(d.drop_last()[i] == d[i]);
        }
        lemma_inserted_same_keys(z1, z2, d.drop_last(), e);
    }
}

/// Two tables of keys that agree on the entities of an order sort it alike.
pub proof fn lemma_draw_order_same_keys(z1: Seq<i32>, z2: Seq<i32>, order: Seq<Entity>)
    requires
        forall|i: int| 0 <= i < order.len() ==> key(z1, #[trigger] order[i]) == key(z2, order[i]),
    ensures
        draw_order(z1, order) == draw_order(z2, order),
    decreases order.len(),
{
    if order.len() > 0 {
        let shorter = order.drop_last();
        let e = order.last();
        assert forall|i: int| 0 <= i < shorter.len() implies key(z1, #[trigger] shorter[i]) == key(
            z2,
            shorter[i],
        ) by {
            assert(shorter[i] == order[i]);
        }
        lemma_draw_order_same_keys(z1, z2, shorter);
        let d0 = draw_order(z1, shorter);
        lemma_draw_order_permutes(z1, shorter);
        assert forall|i: int| 0 <= i < d0.len() implies key(z1, #[trigger] d0[i]) == key(
            z2,
            d0[i],
        ) by {
            vstd::seq_lib::to_multiset_contains(d0, d0[i]);
            vstd::seq_lib::to_multiset_contains(shorter, d0[i]);
            assert(d0.contains(d0[i]));
            assert(shorter.contains(d0[i]));
            let k = choose|k: int| 0 <= k < shorter.len() && shorter[k] == d0[i];
            assert(key(z1, shorter[k]) == key(z2, shorter[k]));
        }
        assert(key(z1, order[order.len() - 1]) == key(z2, order[order.len() - 1]));
        lemma_inserted_same_keys(z1, z2, d0, e);
    }
}

/// Where no entity of the tree has a smaller z-index than its parent, the
/// draw level of every entity of the tree is its z-index.
pub proof fn lemma_level_is_z(tree: &Tree, z: Seq<i32>, e: Entity)
    requires
        tree.wf(),
        forall|x: Entity|
            #![trigger tree.parent_of(x)]
            styled(tree, x) ==> key(z, tree.parent_of(x).unwrap()) <= key(z, x),
        tree.attached(e),
    ensures
        key(draw_levels(tree, z), e) == key(z, e),
    decreases e.0,
{
    let first = stored(Seq::<i32>::empty(), 0, at(z, 0, 0i32), 0i32);
    let rule = level_rule(z);
    assert(reads_parent_only(rule, 0i32));
    lemma_traversal_pass(tree, first, 0i32, rule, e);
    if e != Entity(0) {
        let p = tree.parent@[e.0 as int].unwrap();
        assert(tree.parent_of(e) == Some(p));
        assert(styled(tree, e));
        lemma_level_is_z(tree, z, p);
    }
}

/// Where no entity of the tree has a smaller z-index than its parent, the
/// order in which the visibility pass visits the tree is the traversal
/// sorted by z-index.
pub proof fn lemma_draw_order_is_by_z(tree: &Tree, z: Seq<i32>)
    requires
        tree.wf(),
        forall|x: Entity|
            #![trigger tree.parent_of(x)]
            styled(tree, x) ==> key(z, tree.parent_of(x).unwrap()) <= key(z, x),
    ensures
        draw_order(draw_levels(tree, z), tree.preorder()) == draw_order(z, tree.preorder()),
{
    let order = tree.preorder();
    lemma_preorder(tree);
    assert forall|i: int| 0 <= i < order.len() implies key(
        draw_levels(tree, z),
        #[trigger] order[i],
    ) == key(z, order[i]) by {
        assert(order.contains(order[i]));
        lemma_level_is_z(tree, z, order[i]);
    }
    lemma_draw_order_same_keys(draw_levels(tree, z), z, order);
}

/// In the order in which the visibility pass visits the tree, every entity
/// but the root stands behind its parent, whatever the z-indices are.
pub proof fn lemma_draw_order_parent_first(tree: &Tree, z: Seq<i32>, e: Entity)
    requires
        tree.wf(),
        styled(tree, e),
    ensures
        before_in(
            draw_order(draw_levels(tree, z), tree.preorder()),
            tree.parent_of(e).unwrap(),
            e,
        ),
{
    let order = tree.preorder();
    let levels = draw_levels(tree, z);
    let first = stored(Seq::<i32>::empty(), 0, at(z, 0, 0i32), 0i32);
    let rule = level_rule(z);
    assert(reads_parent_only(rule, 0i32));
    lemma_traversal_pass(tree, first, 0i32, rule, e);
    lemma_preorder(tree);
    lemma_draw_order(levels, order);
    let p = tree.parent_of(e).unwrap();
    assert(tree.parent@[e.0 as int] is Some);
    let i = choose|i: int| 0 <= i < order.len() && order[i] == e;
    assert(parent_earlier(tree, order, i));
    let j = choose|j: int| 0 <= j < i && tree.parent_of(order[i]) == Some(#[trigger] order[j]);
    assert(order[j] == p && order[i] == e);
    assert(before_in(order, p, e));
    assert(key(levels, p) <= key(levels, e));
}

/// Display off reaches every descendant: in a display table that the
/// visibility pass leaves, below an entity whose display is off the display
/// of every descendant is off, whatever its own style says.
pub proof fn lemma_display_off_descends(
    style: &Style,
    tree: &Tree,
    shown: Seq<Display>,
    a: Entity,
    e: Entity,
)
    requires
        tree.wf(),
        forall|x: Entity|
            styled(tree, x) ==> #[trigger] at(shown, x.0 as int, Display::Flex)
                == inherited_display(style, shown, x, tree.parent_of(x).unwrap()),
        tree.attached(a),
        reaches(tree, a.0 as int, e.0 as int),
        at(shown, a.0 as int, Display::Flex) == Display::Off,
    ensures
        at(shown, e.0 as int, Display::Flex) == Display::Off,
    decreases e.0,
{
    if e != a {
        let p = tree.parent@[e.0 as int].unwrap();
        assert(tree.parent_of(e) == Some(p));
        lemma_display_off_descends(style, tree, shown, a, p);
        lemma_reaches_trans(tree, 0, a.0 as int, e.0 as int);
        assert(styled(tree, e));
        assert(at(shown, e.0 as int, Display::Flex) == inherited_display(style, shown, e, p));
    }
}

/// Invisibility reaches every descendant in the same way.
pub proof fn lemma_invisible_descends(
    style: &Style,
    tree: &Tree,
    vis: Seq<Visibility>,
    a: Entity,
    e: Entity,
)
    requires
        tree.wf(),
        forall|x: Entity|
            styled(tree, x) ==> #[trigger] at(vis, x.0 as int, Visibility::Visible)
                == inherited_visibility(style, vis, x, tree.parent_of(x).unwrap()),
        tree.attached(a),
        reaches(tree, a.0 as int, e.0 as int),
        at(vis, a.0 as int, Visibility::Visible) == Visibility::Invisible,
    ensures
        at(vis, e.0 as int, Visibility::Visible) == Visibility::Invisible,
    decreases e.0,
{
    if e != a {
        let p = tree.parent@[e.0 as int].unwrap();
        assert(tree.parent_of(e) == Some(p));
        lemma_invisible_descends(style, tree, vis, a, p);
        lemma_reaches_trans(tree, 0, a.0 as int, e.0 as int);
        assert(styled(tree, e));
        assert(at(vis, e.0 as int, Visibility::Visible) == inherited_visibility(style, vis, e, p));
    }
}

/// Where no style sets a z-index, the z-order pass leaves every entity of
/// the tree with the z-index of the root.
pub proof fn lemma_unstyled_z_is_roots(style: &Style, tree: &Tree, z: Seq<i32>, e: Entity)
    requires
        tree.wf(),
        forall|x: Entity|
            styled(tree, x) ==> #[trigger] key(z, x) == inherited_z(
                style,
                z,
                x,
                tree.parent_of(x).unwrap(),
            ),
        forall|x: Entity| #[trigger] own_z(style, x) is None,
        tree.attached(e),
    ensures
        key(z, e) == key(z, Entity(0)),
    decreases e.0,
{
    if e != Entity(0) {
        let p = tree.parent@[e.0 as int].unwrap();
        assert(tree.parent_of(e) == Some(p));
        assert(styled(tree, e));
        assert(own_z(style, e) is None);
        assert(key(z, e) == inherited_z(style, z, e, p));
        lemma_unstyled_z_is_roots(style, tree, z, p);
    }
}

/// The z-indices are derived state: two tables that the z-order pass can
/// leave for the same tree and styles, and that agree on the root, agree on
/// every entity of the tree, whatever either held before.
pub proof fn lemma_z_determined(style: &Style, tree: &Tree, z1: Seq<i32>, z2: Seq<i32>, e: Entity)
    requires
        tree.wf(),
        forall|x: Entity|
            styled(tree, x) ==> #[trigger] key(z1, x) == inherited_z(
                style,
                z1,
                x,
                tree.parent_of(x).unwrap(),
            ),
        forall|x: Entity|
            styled(tree, x) ==> #[trigger] key(z2, x) == inherited_z(
                style,
                z2,
                x,
                tree.parent_of(x).unwrap(),
            ),
        key(z1, Entity(0)) == key(z2, Entity(0)),
        tree.attached(e),
    ensures
        key(z1, e) == key(z2, e),
    decreases e.0,
{
    if e != Entity(0) {
        let p = tree.parent@[e.0 as int].unwrap();
        assert(tree.parent_of(e) == Some(p));
        assert(styled(tree, e));
        assert(key(z1, e) == inherited_z(style, z1, e, p));
        assert(key(z2, e) == inherited_z(style, z2, e, p));
        lemma_z_determined(style, tree, z1, z2, p);
    }
}

/// Display is derived state: two tables that the visibility pass can leave
/// for the same tree and styles, and that agree on the root, agree on every
/// entity of the tree, whatever the cache held before and whatever the
/// z-indices are.
pub proof fn lemma_display_determined(
    style: &Style,
    tree: &Tree,
    shown1: Seq<Display>,
    shown2: Seq<Display>,
    e: Entity,
)
    requires
        tree.wf(),
        forall|x: Entity|
            styled(tree, x) ==> #[trigger] at(shown1, x.0 as int, Display::Flex)
                == inherited_display(style, shown1, x, tree.parent_of(x).unwrap()),
        forall|x: Entity|
            styled(tree, x) ==> #[trigger] at(shown2, x.0 as int, Display::Flex)
                == inherited_display(style, shown2, x, tree.parent_of(x).unwrap()),
        at(shown1, 0, Display::Flex) == at(shown2, 0, Display::Flex),
        tree.attached(e),
    ensures
        at(shown1, e.0 as int, Display::Flex) == at(shown2, e.0 as int, Display::Flex),
    decreases e.0,
{
    if e != Entity(0) {
        let p = tree.parent@[e.0 as int].unwrap();
        assert(tree.parent_of(e) == Some(p));
        assert(styled(tree, e));
        assert(at(shown1, e.0 as int, Display::Flex) == inherited_display(style, shown1, e, p));
        assert(at(shown2, e.0 as int, Display::Flex) == inherited_display(style, shown2, e, p));
        lemma_display_determined(style, tree, shown1, shown2, p);
    }
}

/// Visibility is derived state in the same way.
pub proof fn lemma_visibility_determined(
    style: &Style,
    tree: &Tree,
    vis1: Seq<Visibility>,
    vis2: Seq<Visibility>,
    e: Entity,
)
    requires
        tree.wf(),
        forall|x: Entity|
            styled(tree, x) ==> #[trigger] at(vis1, x.0 as int, Visibility::Visible)
                == inherited_visibility(style, vis1, x, tree.parent_of(x).unwrap()),
        forall|x: Entity|
            styled(tree, x) ==> #[trigger] at(vis2, x.0 as int, Visibility::Visible)
                == inherited_visibility(style, vis2, x, tree.parent_of(x).unwrap()),
        at(vis1, 0, Visibility::Visible) == at(vis2, 0, Visibility::Visible),
        tree.attached(e),
    ensures
        at(vis1, e.0 as int, Visibility::Visible) == at(vis2, e.0 as int, Visibility::Visible),
    decreases e.0,
{
    if e != Entity(0) {
        let p = tree.parent@[e.0 as int].unwrap();
        assert(tree.parent_of(e) == Some(p));
        assert(styled(tree, e));
        assert(at(vis1, e.0 as int, Visibility::Visible) == inherited_visibility(
            style,
            vis1,
            e,
            p,
        ));
        assert(at(vis2, e.0 as int, Visibility::Visible) == inherited_visibility(
            style,
            vis2,
            e,
            p,
        ));
        lemma_visibility_determined(style, tree, vis1, vis2, p);
    }
}

} // verus!
