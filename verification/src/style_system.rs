use vstd::prelude::*;
use crate::cache::{at, read_at, store_at, stored, CachedData};
use crate::property::{
    lemma_index_injective, lemma_layout_implies_paint, Property, PROPERTY_COUNT,
};
use crate::selector::{fragment_matches, matches_fragment, Selector, SelectorRelation};
use crate::rule::{rule_value, winner, Rule};
use crate::style::{blank_row, Slot, Style};
use crate::inheritance::{
    ascending, lemma_draw_order_ascending, lemma_draw_order_permutes, lemma_draw_pass,
    lemma_traversal_pass, reads_parent_only,
};
use crate::traversal::{lemma_preorder, lemma_reaches_le, reaches};
use crate::tree::{Entity, Tree};
use crate::value::{Display, Value, Visibility};

verus! {

/// The state that the passes work on: the style store and the derived cache.
#[derive(Debug)]
pub struct Context {
    pub style: Style,
    pub cache: CachedData,
}

impl Context {
    /// A context without rules, rows or cached state.
    pub fn new() -> (cx: Context)
        ensures
            cx.style.wf(),
            cx.style.rules@.len() == 0,
            forall|e: Entity| cx.style.row(e) == blank_row(),
            cx.cache.z_index@.len() == 0,
            cx.cache.visibility@.len() == 0,
            cx.cache.display@.len() == 0,
    {
        Context { style: Style::new(), cache: CachedData::new() }
    }
}

/// The z-index that the style of `e` sets itself, if it sets one.
pub open spec fn own_z(style: &Style, e: Entity) -> Option<i32> {
    match style.value(e, Property::ZOrder) {
        Some(Value::Integer(z)) => Some(z),
        _ => None,
    }
}

/// The visibility that the style of `e` sets itself, if it sets one.
pub open spec fn own_visibility(style: &Style, e: Entity) -> Option<Visibility> {
    match style.value(e, Property::Visibility) {
        Some(Value::Visibility(v)) => Some(v),
        _ => None,
    }
}

/// The display that the style of `e` sets itself, if it sets one.
pub open spec fn own_display(style: &Style, e: Entity) -> Option<Display> {
    match style.value(e, Property::Display) {
        Some(Value::Display(d)) => Some(d),
        _ => None,
    }
}

/// The z-index of `e` given the table `z`: its own where its style sets one,
/// else what the table holds for its parent.
pub open spec fn inherited_z(style: &Style, z: Seq<i32>, e: Entity, parent: Entity) -> i32 {
    match own_z(style, e) {
        Some(v) => v,
        None => at(z, parent.0 as int, 0i32),
    }
}

/// The visibility of `e` given the table `vis`: invisible below an invisible
/// parent, else its own, else visible.
pub open spec fn inherited_visibility(
    style: &Style,
    vis: Seq<Visibility>,
    e: Entity,
    parent: Entity,
) -> Visibility {
    if at(vis, parent.0 as int, Visibility::Visible) == Visibility::Invisible {
        Visibility::Invisible
    } else {
        match own_visibility(style, e) {
            Some(v) => v,
            None => Visibility::Visible,
        }
    }
}

/// The display of `e` given the table `shown`: off below a parent that is
/// off, else its own, else flex.
pub open spec fn inherited_display(
    style: &Style,
    shown: Seq<Display>,
    e: Entity,
    parent: Entity,
) -> Display {
    if at(shown, parent.0 as int, Display::Flex) == Display::Off {
        Display::Off
    } else {
        match own_display(style, e) {
            Some(d) => d,
            None => Display::Flex,
        }
    }
}

/// The table after the entities of `order` were visited one by one: each
/// entity that has a parent gets what `rule` makes of the table as it stands
/// at that moment, of the entity and of its parent. The root keeps what it has.
pub open spec fn inherit_pass<T>(
    tree: &Tree,
    table: Seq<T>,
    order: Seq<Entity>,
    fill: T,
    rule: spec_fn(Seq<T>, Entity, Entity) -> T,
) -> Seq<T>
    decreases order.len(),
{
    if order.len() == 0 {
        table
    } else {
        let before = inherit_pass(tree, table, order.drop_last(), fill, rule);
        let e = order.last();
        match tree.parent_of(e) {
            Some(parent) => stored(before, e.0 as int, rule(before, e, parent), fill),
            None => before,
        }
    }
}

/// The rule of the z-order pass.
pub open spec fn z_rule(style: &Style) -> spec_fn(Seq<i32>, Entity, Entity) -> i32 {
    |t: Seq<i32>, e: Entity, parent: Entity| inherited_z(style, t, e, parent)
}

/// The rule by which visibility is inherited.
pub open spec fn visibility_rule(style: &Style) -> spec_fn(
    Seq<Visibility>,
    Entity,
    Entity,
) -> Visibility {
    |t: Seq<Visibility>, e: Entity, parent: Entity| inherited_visibility(style, t, e, parent)
}

/// The rule by which display is inherited.
pub open spec fn display_rule(style: &Style) -> spec_fn(Seq<Display>, Entity, Entity) -> Display {
    |t: Seq<Display>, e: Entity, parent: Entity| inherited_display(style, t, e, parent)
}

/// The level at which `e` is drawn, given the levels so far: its z-index,
/// but no lower than the level of its parent. So no entity is drawn before
/// the entity it hangs on.
pub open spec fn inherited_level(z: Seq<i32>, levels: Seq<i32>, e: Entity, parent: Entity) -> i32 {
    let own = at(z, e.0 as int, 0i32);
    let up = at(levels, parent.0 as int, 0i32);
    if own >= up {
        own
    } else {
        up
    }
}

/// The rule by which draw levels are handed down the tree.
pub open spec fn level_rule(z: Seq<i32>) -> spec_fn(Seq<i32>, Entity, Entity) -> i32 {
    |t: Seq<i32>, e: Entity, parent: Entity| inherited_level(z, t, e, parent)
}

/// The draw levels of the tree for the z-indices `z`: the root has its
/// z-index, every other entity the greatest z-index on its way from the root.
pub open spec fn draw_levels(tree: &Tree, z: Seq<i32>) -> Seq<i32> {
    inherit_pass(
        tree,
        stored(Seq::<i32>::empty(), 0, at(z, 0, 0i32), 0i32),
        tree.preorder(),
        0i32,
        level_rule(z),
    )
}

/// The z-index table after the entities of `order` were visited one by one.
pub open spec fn z_pass(style: &Style, tree: &Tree, z: Seq<i32>, order: Seq<Entity>) -> Seq<i32> {
    inherit_pass(tree, z, order, 0i32, z_rule(style))
}

/// The visibility table after the entities of `order` were visited one by one.
pub open spec fn visibility_pass(
    style: &Style,
    tree: &Tree,
    vis: Seq<Visibility>,
    order: Seq<Entity>,
) -> Seq<Visibility> {
    inherit_pass(tree, vis, order, Visibility::Visible, visibility_rule(style))
}

/// The display table after the entities of `order` were visited one by one.
pub open spec fn display_pass(
    style: &Style,
    tree: &Tree,
    shown: Seq<Display>,
    order: Seq<Entity>,
) -> Seq<Display> {
    inherit_pass(tree, shown, order, Display::Flex, display_rule(style))
}

/// `sorted` with `e` put behind the last entity whose key in `z` is not
/// greater than that of `e`.
pub open spec fn inserted_by_z(z: Seq<i32>, sorted: Seq<Entity>, e: Entity) -> Seq<Entity>
    decreases sorted.len(),
{
    if sorted.len() == 0 {
        seq![e]
    } else if at(z, sorted.last().0 as int, 0i32) <= at(z, e.0 as int, 0i32) {
        sorted.push(e)
    } else {
        inserted_by_z(z, sorted.drop_last(), e).push(sorted.last())
    }
}

/// `order` sorted by the keys that `z` holds, ascending, entities with the
/// same key staying in the order in which `order` has them. With the draw
/// levels for keys this is the draw order.
pub open spec fn draw_order(z: Seq<i32>, order: Seq<Entity>) -> Seq<Entity>
    decreases order.len(),
{
    if order.len() == 0 {
        Seq::empty()
    } else {
        inserted_by_z(z, draw_order(z, order.drop_last()), order.last())
    }
}

/// Inserting by z-index puts the entity at the one place behind which all
/// z-indices are greater and before which the neighbour's is not.
proof fn lemma_inserted_at(z: Seq<i32>, sorted: Seq<Entity>, e: Entity, j: int)
    requires
        0 <= j <= sorted.len(),
        forall|k: int| j <= k < sorted.len() ==> at(z, sorted[k].0 as int, 0i32) > at(z, e.0 as int, 0i32),
        j > 0 ==> at(z, sorted[j - 1].0 as int, 0i32) <= at(z, e.0 as int, 0i32),
    ensures
        inserted_by_z(z, sorted, e) == sorted.insert(j, e),
    decreases sorted.len(),
{
    if sorted.len() == 0 {
        assert(seq![e] =~= sorted.insert(j, e));
    } else if j == sorted.len() {
        assert(sorted.push(e) =~= sorted.insert(j, e));
    } else {
        lemma_inserted_at(z, sorted.drop_last(), e, j);
        assert(sorted.drop_last().insert(j, e).push(sorted.last()) =~= sorted.insert(j, e));
    }
}

/// Sorts `order` by the keys that `keys` holds for its entities, ascending;
/// entities with the same key stay in the order in which `order` has them.
pub fn sort_by_level(keys: &Vec<i32>, order: &Vec<Entity>) -> (sorted: Vec<Entity>)
    ensures
        sorted@ == draw_order(keys@, order@),
        sorted@.to_multiset() == order@.to_multiset(),
        ascending(keys@, sorted@),
{
    let mut out: Vec<Entity> = Vec::new();
    let mut i: usize = 0;
    while i < order.len()
        invariant
            i <= order@.len(),
            out@ == draw_order(keys@, order@.take(i as int)),
            out@.len() == i,
        decreases order@.len() - i,
    {
        let e = order[i];
        let key = read_at(keys, e.0, 0i32);
        let mut j: usize = out.len();
        while j > 0 && read_at(keys, out[j - 1].0, 0i32) > key
            invariant
                j <= out@.len(),
                key == at(keys@, e.0 as int, 0i32),
                forall|k: int| j <= k < out@.len() ==> at(keys@, out@[k].0 as int, 0i32) > key,
            decreases j,
        {
            j -= 1;
        }
        proof {
            lemma_inserted_at(keys@, out@, e, j as int);
            let next = order@.take(i + 1);
            assert(next.drop_last() =~= order@.take(i as int));
            assert(next.last() == e);
        }
        out.insert(j, e);
        i += 1;
    }
    proof {
        assert(order@.take(order@.len() as int) =~= order@);
        lemma_draw_order_permutes(keys@, order@);
        lemma_draw_order_ascending(keys@, order@);
    }
    out
}

/// Computes the draw levels of the tree from the z-indices in the cache.
pub fn levels_of(cache: &CachedData, tree: &Tree) -> (levels: Vec<i32>)
    requires
        tree.wf(),
    ensures
        levels@ == draw_levels(tree, cache.z_index@),
        at(levels@, 0, 0i32) == cache.z(Entity(0)),
        forall|e: Entity|
            styled(tree, e) ==> #[trigger] at(levels@, e.0 as int, 0i32) == inherited_level(
                cache.z_index@,
                levels@,
                e,
                tree.parent_of(e).unwrap(),
            ),
{
    let order = tree.traversal();
    let mut levels: Vec<i32> = Vec::new();
    store_at(&mut levels, 0, cache.get_z_index(Entity::root()), 0i32);
    let ghost first = levels@;
    let mut i: usize = 0;
    while i < order.len()
        invariant
            i <= order@.len(),
            order@ == tree.preorder(),
            first == stored(Seq::<i32>::empty(), 0, at(cache.z_index@, 0, 0i32), 0i32),
            levels@ == inherit_pass(
                tree,
                first,
                order@.take(i as int),
                0i32,
                level_rule(cache.z_index@),
            ),
        decreases order@.len() - i,
    {
        let entity = order[i];
        proof {
            let next = order@.take(i + 1);
            assert(next.drop_last() =~= order@.take(i as int));
            assert(next.last() == entity);
        }
        match tree.get_parent(entity) {
            Some(parent) => {
                let own = cache.get_z_index(entity);
                let up = read_at(&levels, parent.0, 0i32);
                let level: i32 = if own >= up {
                    own
                } else {
                    up
                };
                store_at(&mut levels, entity.0, level, 0i32);
            },
            None => {},
        }
        i += 1;
    }
    proof {
        assert(order@.take(order@.len() as int) =~= order@);
        let rule = level_rule(cache.z_index@);
        assert(reads_parent_only(rule, 0i32));
        assert forall|e: Entity|
            (styled(tree, e) ==> #[trigger] at(levels@, e.0 as int, 0i32) == inherited_level(
                cache.z_index@,
                levels@,
                e,
                tree.parent_of(e).unwrap(),
            )) && (!styled(tree, e) ==> at(levels@, e.0 as int, 0i32) == at(
                first,
                e.0 as int,
                0i32,
            )) by {
            lemma_traversal_pass(tree, first, 0i32, rule, e);
        }
        assert(!styled(tree, Entity(0)));
    }
    levels
}

/// Whether `entity` satisfies the fragment `selector`, by the element, the
/// classes and the pseudo-class flags that the store holds for it.
pub open spec fn entity_matches(style: &Style, entity: Entity, selector: &Selector) -> bool {
    let row = style.row(entity);
    fragment_matches(row.element, row.classes, row.pseudo_classes, selector)
}

/// Tests one selector fragment against one entity.
pub fn check_match(cx: &Context, entity: Entity, selector: &Selector) -> (r: bool)
    ensures
        r == entity_matches(&cx.style, entity, selector),
{
    if entity.0 < cx.style.rows.len() {
        let row = &cx.style.rows[entity.0];
        matches_fragment(row.element, &row.classes, row.pseudo_classes, selector)
    } else {
        let none: Vec<u64> = Vec::new();
        matches_fragment(None, &none, None, selector)
    }
}

/// The z-order pass: every entity but the root takes the z-index that its own
/// style sets, or else the z-index of its parent as the pass has computed it.
/// The root and every entity outside the tree keep what the cache holds.
pub fn apply_z_ordering(cx: &mut Context, tree: &Tree)
    requires
        old(cx).style.wf(),
        tree.wf(),
    ensures
        final(cx).style == old(cx).style,
        final(cx).cache.visibility == old(cx).cache.visibility,
        final(cx).cache.display == old(cx).cache.display,
        final(cx).cache.z_index@ == z_pass(
            &old(cx).style,
            tree,
            old(cx).cache.z_index@,
            tree.preorder(),
        ),
        forall|e: Entity|
            styled(tree, e) ==> #[trigger] final(cx).cache.z(e) == inherited_z(
                &old(cx).style,
                final(cx).cache.z_index@,
                e,
                tree.parent_of(e).unwrap(),
            ),
        forall|e: Entity| !styled(tree, e) ==> #[trigger] final(cx).cache.z(e) == old(cx).cache.z(e),
{
    let order = tree.traversal();
    let mut i: usize = 0;
    while i < order.len()
        invariant
            i <= order@.len(),
            order@ == tree.preorder(),
            cx.style == old(cx).style,
            cx.style.wf(),
            cx.cache.visibility == old(cx).cache.visibility,
            cx.cache.display == old(cx).cache.display,
            cx.cache.z_index@ == z_pass(
                &old(cx).style,
                tree,
                old(cx).cache.z_index@,
                order@.take(i as int),
            ),
        decreases order@.len() - i,
    {
        let entity = order[i];
        proof {
            let next = order@.take(i + 1);
            assert(next.drop_last() =~= order@.take(i as int));
            assert(next.last() == entity);
        }
        match tree.get_parent(entity) {
            Some(parent) => {
                let z: i32 = match cx.style.get(entity, Property::ZOrder) {
                    Some(Value::Integer(z_order)) => z_order,
                    _ => cx.cache.get_z_index(parent),
                };
                cx.cache.set_z_index(entity, z);
            },
            None => {},
        }
        i += 1;
    }
    proof {
        assert(order@.take(order@.len() as int) =~= order@);
        let rule = z_rule(&old(cx).style);
        assert(reads_parent_only(rule, 0i32));
        assert forall|e: Entity|
            (styled(tree, e) ==> #[trigger] cx.cache.z(e) == inherited_z(
                &old(cx).style,
                cx.cache.z_index@,
                e,
                tree.parent_of(e).unwrap(),
            )) && (!styled(tree, e) ==> cx.cache.z(e) == old(cx).cache.z(e)) by {
            lemma_traversal_pass(tree, old(cx).cache.z_index@, 0i32, rule, e);
        }
    }
}

/// The visibility pass. An entity below an invisible parent is invisible,
/// else it has the visibility of its own style, else it is visible; and
/// likewise an entity below a parent whose display is off is off, else it
/// has the display of its own style, else flex. The parent is always the
/// parent in the tree, and what is inherited is what this same pass has
/// computed for it. The entities are visited in draw order: by ascending
/// z-index as the cache holds it, but none before its parent. The root and
/// every entity that does not hang in the tree keep what the cache holds.
pub fn apply_visibility(cx: &mut Context, tree: &Tree)
    requires
        old(cx).style.wf(),
        tree.wf(),
    ensures
        final(cx).style == old(cx).style,
        final(cx).cache.z_index == old(cx).cache.z_index,
        forall|e: Entity|
            styled(tree, e) ==> #[trigger] final(cx).cache.visible(e) == inherited_visibility(
                &old(cx).style,
                final(cx).cache.visibility@,
                e,
                tree.parent_of(e).unwrap(),
            ),
        forall|e: Entity|
            styled(tree, e) ==> #[trigger] final(cx).cache.shown(e) == inherited_display(
                &old(cx).style,
                final(cx).cache.display@,
                e,
                tree.parent_of(e).unwrap(),
            ),
        forall|e: Entity|
            !styled(tree, e) ==> #[trigger] final(cx).cache.visible(e) == old(cx).cache.visible(e),
        forall|e: Entity|
            !styled(tree, e) ==> #[trigger] final(cx).cache.shown(e) == old(cx).cache.shown(e),
        final(cx).cache.visibility@ == visibility_pass(
            &old(cx).style,
            tree,
            old(cx).cache.visibility@,
            draw_order(draw_levels(tree, old(cx).cache.z_index@), tree.preorder()),
        ),
        final(cx).cache.display@ == display_pass(
            &old(cx).style,
            tree,
            old(cx).cache.display@,
            draw_order(draw_levels(tree, old(cx).cache.z_index@), tree.preorder()),
        ),
{
    let order = tree.traversal();
    let levels = levels_of(&cx.cache, tree);
    let draw_tree = sort_by_level(&levels, &order);
    let mut i: usize = 0;
    while i < draw_tree.len()
        invariant
            i <= draw_tree@.len(),
            draw_tree@ == draw_order(levels@, tree.preorder()),
            cx.style == old(cx).style,
            cx.style.wf(),
            cx.cache.z_index == old(cx).cache.z_index,
            cx.cache.visibility@ == visibility_pass(
                &old(cx).style,
                tree,
                old(cx).cache.visibility@,
                draw_tree@.take(i as int),
            ),
            cx.cache.display@ == display_pass(
                &old(cx).style,
                tree,
                old(cx).cache.display@,
                draw_tree@.take(i as int),
            ),
        decreases draw_tree@.len() - i,
    {
        let entity = draw_tree[i];
        proof {
            let next = draw_tree@.take(i + 1);
            assert(next.drop_last() =~= draw_tree@.take(i as int));
            assert(next.last() == entity);
        }
        match tree.get_parent(entity) {
            Some(parent) => {
                let visibility = match cx.cache.get_visibility(parent) {
                    Visibility::Invisible => Visibility::Invisible,
                    Visibility::Visible => match cx.style.get(entity, Property::Visibility) {
                        Some(Value::Visibility(v)) => v,
                        _ => Visibility::Visible,
                    },
                };
                cx.cache.set_visibility(entity, visibility);
                let display = match cx.cache.get_display(parent) {
                    Display::Off => Display::Off,
                    Display::Flex => match cx.style.get(entity, Property::Display) {
                        Some(Value::Display(d)) => d,
                        _ => Display::Flex,
                    },
                };
                cx.cache.set_display(entity, display);
            },
            None => {},
        }
        i += 1;
    }
    proof {
        assert(draw_tree@.take(draw_tree@.len() as int) =~= draw_tree@);
        let vis_rule = visibility_rule(&old(cx).style);
        let dis_rule = display_rule(&old(cx).style);
        assert(reads_parent_only(vis_rule, Visibility::Visible));
        assert(reads_parent_only(dis_rule, Display::Flex));
        assert forall|e: Entity|
            (styled(tree, e) ==> #[trigger] cx.cache.visible(e) == inherited_visibility(
                &old(cx).style,
                cx.cache.visibility@,
                e,
                tree.parent_of(e).unwrap(),
            )) && (!styled(tree, e) ==> cx.cache.visible(e) == old(cx).cache.visible(e)) by {
            if styled(tree, e) {
                assert(at(levels@, e.0 as int, 0i32) == inherited_level(
                    old(cx).cache.z_index@,
                    levels@,
                    e,
                    tree.parent_of(e).unwrap(),
                ));
            }
            lemma_draw_pass(
                tree,
                levels@,
                old(cx).cache.visibility@,
                Visibility::Visible,
                vis_rule,
                e,
            );
        }
        assert forall|e: Entity|
            (styled(tree, e) ==> #[trigger] cx.cache.shown(e) == inherited_display(
                &old(cx).style,
                cx.cache.display@,
                e,
                tree.parent_of(e).unwrap(),
            )) && (!styled(tree, e) ==> cx.cache.shown(e) == old(cx).cache.shown(e)) by {
            if styled(tree, e) {
                assert(at(levels@, e.0 as int, 0i32) == inherited_level(
                    old(cx).cache.z_index@,
                    levels@,
                    e,
                    tree.parent_of(e).unwrap(),
                ));
            }
            lemma_draw_pass(tree, levels@, old(cx).cache.display@, Display::Flex, dis_rule, e);
        }
    }
}

/// The nearest proper ancestor of `cur` that satisfies `sel`, if there is one.
pub open spec fn matching_ancestor(style: &Style, tree: &Tree, cur: Entity, sel: &Selector) -> Option<
    Entity,
>
    decreases cur.0,
{
    if tree.wf() {
        match tree.parent_of(cur) {
            Some(p) => if entity_matches(style, p, sel) {
                Some(p)
            } else {
                matching_ancestor(style, tree, p, sel)
            },
            None => None,
        }
    } else {
        None
    }
}

/// Whether the first `k` fragments of a chain match, read from fragment `k - 1`
/// down to fragment 0, `cur` being the entity that the fragment to the right
/// was matched against.
pub open spec fn chain_matches(
    style: &Style,
    tree: &Tree,
    sels: Seq<Selector>,
    k: int,
    cur: Entity,
) -> bool
    decreases k,
{
    if k <= 0 {
        true
    } else {
        let sel = &sels[k - 1];
        match sel.relation {
            SelectorRelation::Same => entity_matches(style, cur, sel) && chain_matches(
                style,
                tree,
                sels,
                k - 1,
                cur,
            ),
            SelectorRelation::Parent => match tree.parent_of(cur) {
                Some(p) => entity_matches(style, p, sel) && chain_matches(
                    style,
                    tree,
                    sels,
                    k - 1,
                    p,
                ),
                None => false,
            },
            SelectorRelation::Ancestor => match matching_ancestor(style, tree, cur, sel) {
                Some(a) => chain_matches(style, tree, sels, k - 1, a),
                None => false,
            },
        }
    }
}

/// Whether a rule applies to `e`: it has at least one fragment, and its whole
/// chain matches, starting at `e` with the last fragment.
pub open spec fn rule_matches(style: &Style, tree: &Tree, rule: &Rule, e: Entity) -> bool {
    rule.selectors@.len() > 0 && chain_matches(
        style,
        tree,
        rule.selectors@,
        rule.selectors@.len() as int,
        e,
    )
}

/// The positions, in ascending order, of the rules among the first `n` of the
/// table that apply to `e`.
pub open spec fn matched_rules(style: &Style, tree: &Tree, e: Entity, n: int) -> Seq<usize>
    decreases n,
{
    if n <= 0 || n > style.rules@.len() {
        Seq::empty()
    } else {
        let rest = matched_rules(style, tree, e, n - 1);
        if rule_matches(style, tree, &style.rules@[n - 1], e) {
            rest.push((n - 1) as usize)
        } else {
            rest
        }
    }
}

/// The value that the rule table gives to property `p` of `e`: that of the
/// last rule that applies to `e` and assigns `p`.
pub open spec fn won(style: &Style, tree: &Tree, e: Entity, p: Property) -> Option<Value> {
    winner(style.rules@, matched_rules(style, tree, e, style.rules@.len() as int), p)
}

/// What the cascade leaves in the slot of property `p` of `e`.
pub open spec fn resolved_slot(style: &Style, tree: &Tree, e: Entity, p: Property) -> Slot {
    style.slot(e, p).relinked(won(style, tree, e, p))
}

/// Two stores hold the same rules and, for every entity, the same element,
/// classes and pseudo-class flags.
pub open spec fn same_identity(a: &Style, b: &Style) -> bool {
    &&& a.rules@ == b.rules@
    &&& forall|x: Entity|
        {
            &&& (#[trigger] a.row(x)).element == b.row(x).element
            &&& a.row(x).classes == b.row(x).classes
            &&& a.row(x).pseudo_classes == b.row(x).pseudo_classes
        }
}

proof fn lemma_same_ancestor(a: &Style, b: &Style, tree: &Tree, cur: Entity, sel: &Selector)
    requires
        same_identity(a, b),
    ensures
        matching_ancestor(a, tree, cur, sel) == matching_ancestor(b, tree, cur, sel),
    decreases cur.0,
{
    if tree.wf() {
        match tree.parent_of(cur) {
            Some(p) => {
                assert(a.row(p).element == b.row(p).element);
                if !entity_matches(a, p, sel) {
                    lemma_same_ancestor(a, b, tree, p, sel);
                }
            },
            None => {},
        }
    }
}

proof fn lemma_same_chain(
    a: &Style,
    b: &Style,
    tree: &Tree,
    sels: Seq<Selector>,
    k: int,
    cur: Entity,
)
    requires
        same_identity(a, b),
    ensures
        chain_matches(a, tree, sels, k, cur) == chain_matches(b, tree, sels, k, cur),
    decreases k,
{
    if k > 0 {
        let sel = &sels[k - 1];
        assert(a.row(cur).element == b.row(cur).element);
        match sel.relation {
            SelectorRelation::Same => {
                lemma_same_chain(a, b, tree, sels, k - 1, cur);
            },
            SelectorRelation::Parent => {
                match tree.parent_of(cur) {
                    Some(p) => {
                        assert(a.row(p).element == b.row(p).element);
                        lemma_same_chain(a, b, tree, sels, k - 1, p);
                    },
                    None => {},
                }
            },
            SelectorRelation::Ancestor => {
                lemma_same_ancestor(a, b, tree, cur, sel);
                match matching_ancestor(a, tree, cur, sel) {
                    Some(x) => {
                        lemma_same_chain(a, b, tree, sels, k - 1, x);
                    },
                    None => {},
                }
            },
        }
    }
}

/// Which rules apply to an entity depends on the rule table and on the
/// elements, classes and flags of the entities, and on nothing else.
pub proof fn lemma_same_matches(a: &Style, b: &Style, tree: &Tree, e: Entity, n: int)
    requires
        same_identity(a, b),
    ensures
        matched_rules(a, tree, e, n) == matched_rules(b, tree, e, n),
    decreases n,
{
    if n > 0 && n <= a.rules@.len() {
        lemma_same_matches(a, b, tree, e, n - 1);
        let rule = &a.rules@[n - 1];
        lemma_same_chain(a, b, tree, rule.selectors@, rule.selectors@.len() as int, e);
    }
}

/// A universal fragment matches every entity that has no pseudo-class flag,
/// whatever the fragment requires.
pub proof fn lemma_universal_matches_unflagged(style: &Style, e: Entity, sel: &Selector)
    requires
        sel.asterisk,
        style.row(e).pseudo_classes is None || style.row(e).pseudo_classes == Some(0u32),
    ensures
        entity_matches(style, e, sel),
{
}

/// A relation steers which entity a fragment is tested against; whether
/// that entity satisfies the fragment does not depend on it.
pub proof fn lemma_relation_plays_no_part(style: &Style, e: Entity, a: &Selector, b: &Selector)
    requires
        a.element == b.element,
        a.classes@ == b.classes@,
        a.pseudo_classes == b.pseudo_classes,
        a.asterisk == b.asterisk,
    ensures
        entity_matches(style, e, a) == entity_matches(style, e, b),
{
}

/// The ancestor that a fragment with the ancestor relation is matched
/// against is a proper ancestor that satisfies the fragment, and the
/// nearest such: no entity between it and `cur` satisfies the fragment.
pub proof fn lemma_matching_ancestor_is_nearest(
    style: &Style,
    tree: &Tree,
    cur: Entity,
    sel: &Selector,
    between: Entity,
)
    requires
        tree.wf(),
        matching_ancestor(style, tree, cur, sel) is Some,
    ensures
        ({
            let a = matching_ancestor(style, tree, cur, sel).unwrap();
            &&& a != cur
            &&& reaches(tree, a.0 as int, cur.0 as int)
            &&& entity_matches(style, a, sel)
            &&& (between != cur && between != a && reaches(tree, between.0 as int, cur.0 as int)
                && reaches(tree, a.0 as int, between.0 as int)) ==> !entity_matches(
                style,
                between,
                sel,
            )
        }),
    decreases cur.0,
{
    let a = matching_ancestor(style, tree, cur, sel).unwrap();
    let p = tree.parent_of(cur).unwrap();
    assert(tree.parent@[cur.0 as int] == Some(p));
    assert(p.0 < cur.0);
    assert(reaches(tree, p.0 as int, p.0 as int));
    if entity_matches(style, p, sel) {
        assert(a == p);
        if between != cur && between != a && reaches(tree, between.0 as int, cur.0 as int)
            && reaches(tree, a.0 as int, between.0 as int) {
            lemma_reaches_le(tree, a.0 as int, between.0 as int);
            lemma_reaches_le(tree, between.0 as int, p.0 as int);
        }
    } else {
        lemma_matching_ancestor_is_nearest(style, tree, p, sel, between);
        lemma_reaches_le(tree, a.0 as int, p.0 as int);
    }
}

/// Walks from `cur` towards the root and returns the first proper ancestor
/// that satisfies `sel`.
pub fn find_ancestor(cx: &Context, tree: &Tree, cur: Entity, sel: &Selector) -> (r: Option<Entity>)
    requires
        tree.wf(),
    ensures
        r == matching_ancestor(&cx.style, tree, cur, sel),
{
    let mut here = cur;
    loop
        invariant
            tree.wf(),
            matching_ancestor(&cx.style, tree, cur, sel) == matching_ancestor(
                &cx.style,
                tree,
                here,
                sel,
            ),
        decreases here.0,
    {
        match tree.get_parent(here) {
            Some(p) => {
                if check_match(cx, p, sel) {
                    return Some(p);
                }
                here = p;
            },
            None => {
                return None;
            },
        }
    }
}

/// Whether `rule` applies to `entity`.
pub fn matches_rule(cx: &Context, tree: &Tree, rule: &Rule, entity: Entity) -> (r: bool)
    requires
        tree.wf(),
    ensures
        r == rule_matches(&cx.style, tree, rule, entity),
{
    if rule.selectors.len() == 0 {
        return false;
    }
    let mut k: usize = rule.selectors.len();
    let mut cur = entity;
    while k > 0
        invariant
            tree.wf(),
            k <= rule.selectors@.len(),
            rule_matches(&cx.style, tree, rule, entity) == chain_matches(
                &cx.style,
                tree,
                rule.selectors@,
                k as int,
                cur,
            ),
        decreases k,
    {
        let sel = &rule.selectors[k - 1];
        match sel.relation {
            SelectorRelation::Same => {
                if !check_match(cx, cur, sel) {
                    return false;
                }
            },
            SelectorRelation::Parent => {
                match tree.get_parent(cur) {
                    Some(p) => {
                        if !check_match(cx, p, sel) {
                            return false;
                        }
                        cur = p;
                    },
                    None => {
                        return false;
                    },
                }
            },
            SelectorRelation::Ancestor => {
                match find_ancestor(cx, tree, cur, sel) {
                    Some(a) => {
                        cur = a;
                    },
                    None => {
                        return false;
                    },
                }
            },
        }
        k -= 1;
    }
    true
}

/// The rules that apply to `entity`, by position in the table, in table order.
pub fn match_rules(cx: &Context, tree: &Tree, entity: Entity) -> (matched: Vec<usize>)
    requires
        tree.wf(),
    ensures
        matched@ == matched_rules(&cx.style, tree, entity, cx.style.rules@.len() as int),
{
    let mut matched: Vec<usize> = Vec::new();
    let mut n: usize = 0;
    while n < cx.style.rules.len()
        invariant
            tree.wf(),
            n <= cx.style.rules@.len(),
            matched@ == matched_rules(&cx.style, tree, entity, n as int),
        decreases cx.style.rules@.len() - n,
    {
        if matches_rule(cx, tree, &cx.style.rules[n], entity) {
            matched.push(n);
        }
        n += 1;
    }
    matched
}

/// What a pass of the cascade reports: whether a property that bears on layout
/// changed its resolved value, and whether one that bears on painting did.
#[derive(Clone, Copy, PartialEq, Eq, Structural, Debug)]
pub struct Changes {
    pub relayout: bool,
    pub redraw: bool,
}

/// Whether property `p` bears on layout (`layout` set) or on painting.
pub open spec fn bears_on(p: Property, layout: bool) -> bool {
    if layout {
        p.spec_affects_layout()
    } else {
        p.spec_affects_paint()
    }
}

/// Property `p` bears on layout (or on painting) and its resolved value for
/// `e` is not the same in `a` and in `b`.
pub open spec fn differs(a: &Style, b: &Style, e: Entity, p: Property, layout: bool) -> bool {
    bears_on(p, layout) && a.value(e, p) != b.value(e, p)
}

/// Some property of `e` that stands before position `i` differs.
pub open spec fn changed_below(a: &Style, b: &Style, e: Entity, i: int, layout: bool) -> bool {
    exists|p: Property| p.spec_index() < i && #[trigger] differs(a, b, e, p, layout)
}

/// Some property of `e` differs.
pub open spec fn entity_changed(a: &Style, b: &Style, e: Entity, layout: bool) -> bool {
    exists|p: Property| #[trigger] differs(a, b, e, p, layout)
}

/// `x` hangs in the tree and is not the root: it is one of the entities
/// that the passes work on.
pub open spec fn styled(tree: &Tree, x: Entity) -> bool {
    x != Entity(0) && tree.attached(x)
}

/// `x` is an entity of `scope` other than the root.
pub open spec fn visited(scope: Seq<Entity>, x: Entity) -> bool {
    x != Entity(0) && scope.contains(x)
}

/// Some property of some entity of `scope` other than the root differs.
pub open spec fn any_changed(a: &Style, b: &Style, scope: Seq<Entity>, layout: bool) -> bool {
    exists|x: Entity| visited(scope, x) && #[trigger] entity_changed(a, b, x, layout)
}

/// Whatever asks for a new layout asks for a repaint too.
pub proof fn lemma_relayout_is_redraw(a: &Style, b: &Style, e: Entity)
    ensures
        entity_changed(a, b, e, true) ==> entity_changed(a, b, e, false),
{
    if entity_changed(a, b, e, true) {
        let p = choose|p: Property| #[trigger] differs(a, b, e, p, true);
        lemma_layout_implies_paint(p);
        assert(differs(a, b, e, p, false));
    }
}

proof fn lemma_index_range(p: Property)
    ensures
        0 <= p.spec_index() < PROPERTY_COUNT,
{
}

proof fn lemma_changed_below_step(
    old_style: &Style,
    prev: &Style,
    next: &Style,
    e: Entity,
    p: Property,
    layout: bool,
)
    requires
        forall|q: Property| q != p ==> #[trigger] next.value(e, q) == prev.value(e, q),
        prev.value(e, p) == old_style.value(e, p),
    ensures
        changed_below(old_style, next, e, p.spec_index() + 1, layout) == (changed_below(
            old_style,
            prev,
            e,
            p.spec_index(),
            layout,
        ) || differs(prev, next, e, p, layout)),
{
    let i = p.spec_index();
    if changed_below(old_style, next, e, i + 1, layout) {
        let q = choose|q: Property|
            q.spec_index() < i + 1 && #[trigger] differs(old_style, next, e, q, layout);
        if q.spec_index() == i {
            lemma_index_injective(p, q);
        } else {
            assert(next.value(e, q) == prev.value(e, q));
            assert(differs(old_style, prev, e, q, layout));
        }
    }
    if changed_below(old_style, prev, e, i, layout) {
        let q = choose|q: Property|
            q.spec_index() < i && #[trigger] differs(old_style, prev, e, q, layout);
        assert(next.value(e, q) == prev.value(e, q));
        assert(differs(old_style, next, e, q, layout));
    }
    if differs(prev, next, e, p, layout) {
        assert(differs(old_style, next, e, p, layout));
    }
}

proof fn lemma_changed_below_all(a: &Style, b: &Style, e: Entity, layout: bool)
    ensures
        changed_below(a, b, e, PROPERTY_COUNT as int, layout) == entity_changed(a, b, e, layout),
{
    if entity_changed(a, b, e, layout) {
        let q = choose|q: Property| #[trigger] differs(a, b, e, q, layout);
        lemma_index_range(q);
    }
}

/// Links every property of `entity` against the rules that apply to it, and
/// reports what changed.
pub fn restyle(cx: &mut Context, tree: &Tree, entity: Entity) -> (r: Changes)
    requires
        old(cx).style.wf(),
        tree.wf(),
    ensures
        final(cx).style.wf(),
        final(cx).cache == old(cx).cache,
        same_identity(&final(cx).style, &old(cx).style),
        forall|x: Entity| x != entity ==> final(cx).style.row(x) == old(cx).style.row(x),
        forall|p: Property| #[trigger]
            final(cx).style.slot(entity, p) == resolved_slot(&old(cx).style, tree, entity, p),
        r.relayout == entity_changed(&old(cx).style, &final(cx).style, entity, true),
        r.redraw == entity_changed(&old(cx).style, &final(cx).style, entity, false),
        r.relayout ==> r.redraw,
{
    let matched = match_rules(cx, tree, entity);
    let mut relayout = false;
    let mut redraw = false;
    let mut i: usize = 0;
    while i < PROPERTY_COUNT
        invariant
            i <= PROPERTY_COUNT,
            cx.style.wf(),
            old(cx).style.wf(),
            cx.cache == old(cx).cache,
            same_identity(&cx.style, &old(cx).style),
            matched@ == matched_rules(
                &old(cx).style,
                tree,
                entity,
                old(cx).style.rules@.len() as int,
            ),
            forall|x: Entity| x != entity ==> cx.style.row(x) == old(cx).style.row(x),
            forall|q: Property|
                q.spec_index() < i ==> #[trigger] cx.style.slot(entity, q) == resolved_slot(
                    &old(cx).style,
                    tree,
                    entity,
                    q,
                ),
            forall|q: Property|
                q.spec_index() >= i ==> #[trigger] cx.style.slot(entity, q) == old(cx).style.slot(
                    entity,
                    q,
                ),
            relayout == changed_below(&old(cx).style, &cx.style, entity, i as int, true),
            redraw == changed_below(&old(cx).style, &cx.style, entity, i as int, false),
        decreases PROPERTY_COUNT - i,
    {
        let ghost prev = cx.style;
        match Property::from_index(i) {
            Some(p) => {
                let changed = cx.style.link(entity, p, &matched);
                if changed {
                    if p.affects_layout() {
                        relayout = true;
                    }
                    if p.affects_paint() {
                        redraw = true;
                    }
                }
                proof {
                    let next = cx.style;
                    assert(prev.slot(entity, p) == old(cx).style.slot(entity, p));
                    assert forall|q: Property| q != p implies #[trigger] next.slot(entity, q)
                        == prev.slot(entity, q) by {
                        lemma_index_range(q);
                        lemma_index_range(p);
                        if q.spec_index() == p.spec_index() {
                            lemma_index_injective(p, q);
                        }
                    }
                    assert forall|q: Property| q != p implies #[trigger] next.value(entity, q)
                        == prev.value(entity, q) by {
                        assert(next.slot(entity, q) == prev.slot(entity, q));
                    }
                    lemma_index_range(p);
                    assert(next.slot(entity, p) == resolved_slot(
                        &old(cx).style,
                        tree,
                        entity,
                        p,
                    ));
                    lemma_changed_below_step(&old(cx).style, &prev, &next, entity, p, true);
                    lemma_changed_below_step(&old(cx).style, &prev, &next, entity, p, false);
                    assert forall|q: Property| q.spec_index() < i + 1 implies #[trigger]
                        next.slot(entity, q) == resolved_slot(
                        &old(cx).style,
                        tree,
                        entity,
                        q,
                    ) by {
                        if q.spec_index() == i {
                            lemma_index_injective(p, q);
                        } else {
                            assert(next.slot(entity, q) == prev.slot(entity, q));
                        }
                    }
                    assert forall|q: Property| q.spec_index() >= i + 1 implies #[trigger]
                        next.slot(entity, q) == old(cx).style.slot(entity, q) by {
                        assert(next.slot(entity, q) == prev.slot(entity, q));
                    }
                    assert(next.row(entity).element == prev.row(entity).element);
                    assert(same_identity(&next, &old(cx).style)) by {
                        assert forall|x: Entity|
                            {
                                &&& (#[trigger] next.row(x)).element == old(cx).style.row(
                                    x,
                                ).element
                                &&& next.row(x).classes == old(cx).style.row(x).classes
                                &&& next.row(x).pseudo_classes == old(cx).style.row(
                                    x,
                                ).pseudo_classes
                            } by {
                            assert(prev.row(x).element == old(cx).style.row(x).element);
                            if x != entity {
                                assert(next.row(x) == prev.row(x));
                            }
                        }
                    }
                }
            },
            None => {},
        }
        i += 1;
    }
    proof {
        lemma_changed_below_all(&old(cx).style, &cx.style, entity, true);
        lemma_changed_below_all(&old(cx).style, &cx.style, entity, false);
        lemma_relayout_is_redraw(&old(cx).style, &cx.style, entity);
        assert forall|p: Property| #[trigger]
            cx.style.slot(entity, p) == resolved_slot(&old(cx).style, tree, entity, p) by {
            lemma_index_range(p);
        }
    }
    Changes { relayout, redraw }
}

proof fn lemma_visited_step(order: Seq<Entity>, j: int, x: Entity)
    requires
        0 <= j < order.len(),
    ensures
        visited(order.take(j + 1), x) == (visited(order.take(j), x) || (x == order[j] && x
            != Entity(0))),
{
    let shorter = order.take(j);
    let longer = order.take(j + 1);
    if shorter.contains(x) {
        let k = choose|k: int| 0 <= k < shorter.len() && shorter[k] == x;
        assert(longer[k] == x);
    }
    if x == order[j] {
        assert(longer[j] == x);
    }
    if longer.contains(x) {
        let k = choose|k: int| 0 <= k < longer.len() && longer[k] == x;
        if k < j {
            assert(shorter[k] == x);
        }
    }
}

proof fn lemma_any_changed_step(
    old_style: &Style,
    prev: &Style,
    next: &Style,
    order: Seq<Entity>,
    j: int,
    layout: bool,
)
    requires
        0 <= j < order.len(),
        forall|x: Entity, p: Property|
            x != order[j] ==> #[trigger] next.value(x, p) == prev.value(x, p),
        order[j] == Entity(0) || visited(order.take(j), order[j]) ==> forall|p: Property| #[trigger]
            next.value(order[j], p) == prev.value(order[j], p),
        !visited(order.take(j), order[j]) ==> forall|p: Property| #[trigger]
            prev.value(order[j], p) == old_style.value(order[j], p),
    ensures
        any_changed(old_style, next, order.take(j + 1), layout) == (any_changed(
            old_style,
            prev,
            order.take(j),
            layout,
        ) || (order[j] != Entity(0) && entity_changed(prev, next, order[j], layout))),
{
    let e = order[j];
    if any_changed(old_style, next, order.take(j + 1), layout) {
        let x = choose|x: Entity|
            visited(order.take(j + 1), x) && #[trigger] entity_changed(
                old_style,
                next,
                x,
                layout,
            );
        let p = choose|p: Property| #[trigger] differs(old_style, next, x, p, layout);
        lemma_visited_step(order, j, x);
        if visited(order.take(j), x) {
            assert(next.value(x, p) == prev.value(x, p));
            assert(differs(old_style, prev, x, p, layout));
            assert(entity_changed(old_style, prev, x, layout));
        } else {
            assert(prev.value(e, p) == old_style.value(e, p));
            assert(differs(prev, next, e, p, layout));
        }
    }
    if any_changed(old_style, prev, order.take(j), layout) {
        let x = choose|x: Entity|
            visited(order.take(j), x) && #[trigger] entity_changed(old_style, prev, x, layout);
        let p = choose|p: Property| #[trigger] differs(old_style, prev, x, p, layout);
        lemma_visited_step(order, j, x);
        assert(next.value(x, p) == prev.value(x, p));
        assert(differs(old_style, next, x, p, layout));
        assert(entity_changed(old_style, next, x, layout));
    }
    if e != Entity(0) && entity_changed(prev, next, e, layout) {
        let p = choose|p: Property| #[trigger] differs(prev, next, e, p, layout);
        lemma_visited_step(order, j, e);
        if visited(order.take(j), e) {
            assert(next.value(e, p) == prev.value(e, p));
        } else {
            assert(prev.value(e, p) == old_style.value(e, p));
            assert(differs(old_style, next, e, p, layout));
            assert(entity_changed(old_style, next, e, layout));
        }
    }
}

proof fn lemma_scope_is_tree(a: &Style, b: &Style, tree: &Tree, layout: bool)
    requires
        forall|x: Entity| visited(tree.preorder(), x) == styled(tree, x),
    ensures
        any_changed(a, b, tree.preorder(), layout) == changed_in_tree(a, b, tree, layout),
{
    if any_changed(a, b, tree.preorder(), layout) {
        let x = choose|x: Entity|
            visited(tree.preorder(), x) && #[trigger] entity_changed(a, b, x, layout);
        assert(styled(tree, x));
    }
    if changed_in_tree(a, b, tree, layout) {
        let x = choose|x: Entity| styled(tree, x) && #[trigger] entity_changed(a, b, x, layout);
        assert(visited(tree.preorder(), x));
    }
}

/// Linking a slot a second time against the same winner changes nothing.
pub proof fn lemma_relinked_twice(slot: Slot, won: Option<Value>)
    ensures
        slot.relinked(won).relinked(won) == slot.relinked(won),
{
}

/// `after` is what the cascade makes of `before`: the rules, elements, classes
/// and flags are the same; every slot of every entity of the tree but the root
/// holds what the cascade resolves for it; every other slot is as it was.
pub open spec fn cascaded(before: &Style, after: &Style, tree: &Tree) -> bool {
    &&& same_identity(after, before)
    &&& forall|x: Entity, p: Property| #[trigger]
        after.slot(x, p) == (if styled(tree, x) {
            resolved_slot(before, tree, x, p)
        } else {
            before.slot(x, p)
        })
}

/// Some property of some entity of the tree other than the root differs.
pub open spec fn changed_in_tree(a: &Style, b: &Style, tree: &Tree, layout: bool) -> bool {
    exists|x: Entity| styled(tree, x) && #[trigger] entity_changed(a, b, x, layout)
}

/// Among the rules that apply to an entity the last one that assigns a
/// property wins it: if the rule at position `r` applies to `e` and gives
/// `p` the value `v`, and no rule behind it that applies to `e` assigns `p`,
/// then among the first `n` rules, `n` beyond `r`, the value `v` wins.
pub proof fn lemma_last_rule_wins(
    style: &Style,
    tree: &Tree,
    e: Entity,
    p: Property,
    r: int,
    v: Value,
    n: int,
)
    requires
        0 <= r < n <= style.rules@.len(),
        rule_matches(style, tree, &style.rules@[r], e),
        rule_value(style.rules@, r as usize, p) == Some(v),
        forall|k: int|
            r < k < style.rules@.len() && rule_matches(style, tree, &style.rules@[k], e)
                ==> #[trigger] rule_value(style.rules@, k as usize, p) is None,
    ensures
        winner(style.rules@, matched_rules(style, tree, e, n), p) == Some(v),
    decreases n,
{
    let rest = matched_rules(style, tree, e, n - 1);
    if rule_matches(style, tree, &style.rules@[n - 1], e) {
        assert(rest.push((n - 1) as usize).drop_last() =~= rest);
        if n - 1 > r {
            assert(rule_value(style.rules@, (n - 1) as usize, p) is None);
            lemma_last_rule_wins(style, tree, e, p, r, v, n - 1);
        }
    } else {
        lemma_last_rule_wins(style, tree, e, p, r, v, n - 1);
    }
}

/// An inline value is the resolved value, whatever the rules say.
pub proof fn lemma_inline_wins(style: &Style, tree: &Tree, e: Entity, p: Property, v: Value)
    requires
        style.slot(e, p) == Slot::Inline(v),
    ensures
        resolved_slot(style, tree, e, p) == Slot::Inline(v),
        resolved_slot(style, tree, e, p).value() == Some(v),
{
}

/// Without an inline value, the resolved value is the one that wins among the
/// rules that apply.
pub proof fn lemma_rules_decide(style: &Style, tree: &Tree, e: Entity, p: Property)
    requires
        !(style.slot(e, p) is Inline),
    ensures
        resolved_slot(style, tree, e, p).value() == won(style, tree, e, p),
{
}

/// The cascade is idempotent: a second pass over an unchanged tree and rule
/// table leaves every slot as the first pass left it, and reports no change.
pub proof fn lemma_cascade_idempotent(first: &Style, second: &Style, third: &Style, tree: &Tree)
    requires
        cascaded(first, second, tree),
        cascaded(second, third, tree),
    ensures
        forall|x: Entity, p: Property| #[trigger] third.slot(x, p) == second.slot(x, p),
        forall|x: Entity, p: Property| #[trigger] third.value(x, p) == second.value(x, p),
        !changed_in_tree(second, third, tree, true),
        !changed_in_tree(second, third, tree, false),
{
    assert forall|x: Entity, p: Property| #[trigger] third.slot(x, p) == second.slot(x, p) by {
        assert(second.slot(x, p) == (if styled(tree, x) {
            resolved_slot(first, tree, x, p)
        } else {
            first.slot(x, p)
        }));
        if styled(tree, x) {
            lemma_same_matches(second, first, tree, x, first.rules@.len() as int);
            lemma_relinked_twice(first.slot(x, p), won(first, tree, x, p));
        }
    }
    assert forall|x: Entity, p: Property| #[trigger] third.value(x, p) == second.value(x, p) by {
        assert(third.slot(x, p) == second.slot(x, p));
    }
    assert forall|layout: bool| !changed_in_tree(second, third, tree, layout) by {
        if changed_in_tree(second, third, tree, layout) {
            let x = choose|x: Entity|
                styled(tree, x) && #[trigger] entity_changed(second, third, x, layout);
            let p = choose|p: Property| #[trigger] differs(second, third, x, p, layout);
            assert(third.value(x, p) == second.value(x, p));
        }
    }
}

/// The cascade. For every entity of the tree but the root, parents before
/// their children, it finds the rules whose selector chains match and
/// resolves every property against them: an inline value stays, otherwise
/// the last matching rule that assigns the property gives the value,
/// otherwise the property is unset. Rules, elements, classes and flags stay
/// as they are, and so do the root and every entity outside the tree. The
/// result says whether the resolved value of any property that bears on
/// layout, or on painting, is another than before.
pub fn apply_styles(cx: &mut Context, tree: &Tree) -> (r: Changes)
    requires
        old(cx).style.wf(),
        tree.wf(),
    ensures
        final(cx).style.wf(),
        final(cx).cache == old(cx).cache,
        cascaded(&old(cx).style, &final(cx).style, tree),
        r.relayout == changed_in_tree(&old(cx).style, &final(cx).style, tree, true),
        r.redraw == changed_in_tree(&old(cx).style, &final(cx).style, tree, false),
        r.relayout ==> r.redraw,
{
    let order = tree.traversal();
    let mut relayout = false;
    let mut redraw = false;
    let mut j: usize = 0;
    proof {
        assert(!any_changed(&old(cx).style, &cx.style, order@.take(0), true));
        assert(!any_changed(&old(cx).style, &cx.style, order@.take(0), false));
    }
    while j < order.len()
        invariant
            j <= order@.len(),
            order@ == tree.preorder(),
            tree.wf(),
            cx.style.wf(),
            cx.cache == old(cx).cache,
            same_identity(&cx.style, &old(cx).style),
            forall|x: Entity, p: Property| #[trigger]
                cx.style.slot(x, p) == (if visited(order@.take(j as int), x) {
                    resolved_slot(&old(cx).style, tree, x, p)
                } else {
                    old(cx).style.slot(x, p)
                }),
            relayout == any_changed(&old(cx).style, &cx.style, order@.take(j as int), true),
            redraw == any_changed(&old(cx).style, &cx.style, order@.take(j as int), false),
        decreases order@.len() - j,
    {
        let entity = order[j];
        let ghost prev = cx.style;
        if entity != Entity::root() {
            let c = restyle(cx, tree, entity);
            relayout = relayout || c.relayout;
            redraw = redraw || c.redraw;
        }
        proof {
            let next = cx.style;
            let first = old(cx).style;
            assert(same_identity(&next, &first)) by {
                assert forall|x: Entity|
                    {
                        &&& (#[trigger] next.row(x)).element == first.row(x).element
                        &&& next.row(x).classes == first.row(x).classes
                        &&& next.row(x).pseudo_classes == first.row(x).pseudo_classes
                    } by {
                    assert(prev.row(x).element == first.row(x).element);
                    assert(next.row(x).element == prev.row(x).element);
                }
            }
            assert forall|x: Entity, p: Property| #[trigger]
                next.slot(x, p) == (if visited(order@.take(j + 1), x) {
                    resolved_slot(&first, tree, x, p)
                } else {
                    first.slot(x, p)
                }) by {
                lemma_visited_step(order@, j as int, x);
                assert(prev.slot(x, p) == (if visited(order@.take(j as int), x) {
                    resolved_slot(&first, tree, x, p)
                } else {
                    first.slot(x, p)
                }));
                if x == entity && entity != Entity(0) {
                    lemma_same_matches(&prev, &first, tree, x, first.rules@.len() as int);
                    assert(next.slot(x, p) == resolved_slot(&prev, tree, x, p));
                    lemma_relinked_twice(first.slot(x, p), won(&first, tree, x, p));
                } else if x != entity {
                    assert(next.row(x) == prev.row(x));
                }
            }
            assert forall|x: Entity, p: Property| x != entity implies #[trigger] next.value(x, p)
                == prev.value(x, p) by {
                assert(next.row(x) == prev.row(x));
            }
            if entity == Entity(0) || visited(order@.take(j as int), entity) {
                assert forall|p: Property| #[trigger]
                    next.value(entity, p) == prev.value(entity, p) by {
                    lemma_visited_step(order@, j as int, entity);
                    assert(next.slot(entity, p) == prev.slot(entity, p));
                }
            }
            if !visited(order@.take(j as int), entity) {
                assert forall|p: Property| #[trigger]
                    prev.value(entity, p) == first.value(entity, p) by {
                    assert(prev.slot(entity, p) == first.slot(entity, p));
                }
            }
            lemma_any_changed_step(&first, &prev, &next, order@, j as int, true);
            lemma_any_changed_step(&first, &prev, &next, order@, j as int, false);
        }
        j += 1;
    }
    proof {
        assert(order@.take(order@.len() as int) =~= order@);
        lemma_preorder(tree);
        assert forall|x: Entity| visited(tree.preorder(), x) == styled(tree, x) by {}
        lemma_scope_is_tree(&old(cx).style, &cx.style, tree, true);
        lemma_scope_is_tree(&old(cx).style, &cx.style, tree, false);
        if changed_in_tree(&old(cx).style, &cx.style, tree, true) {
            let x = choose|x: Entity|
                styled(tree, x) && #[trigger] entity_changed(&old(cx).style, &cx.style, x, true);
            lemma_relayout_is_redraw(&old(cx).style, &cx.style, x);
        }
    }
    Changes { relayout, redraw }
}

} // verus!
