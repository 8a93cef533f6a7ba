use vizia_style::property::Property;
use vizia_style::style_system::{
    apply_visibility, apply_z_ordering, levels_of, sort_by_level, Context,
};
use vizia_style::tree::{Entity, Tree};
use vizia_style::value::{Display, Value, Visibility};

/// root -> a -> (b -> d, c)
fn family() -> (Tree, Entity, Entity, Entity, Entity) {
    let mut tree = Tree::new();
    let a = tree.add(Entity::root()).unwrap();
    let b = tree.add(a).unwrap();
    let c = tree.add(a).unwrap();
    let d = tree.add(b).unwrap();
    (tree, a, b, c, d)
}

#[test]
fn traversal_visits_parents_first() {
    let (tree, a, b, c, d) = family();
    assert_eq!(tree.traversal(), vec![Entity::root(), a, b, d, c]);
    assert_eq!(tree.len(), 5);
    assert_eq!(tree.get_parent(d), Some(b));
    assert_eq!(tree.get_parent(Entity::root()), None);
    assert_eq!(tree.get_parent(Entity(77)), None);
    assert_eq!(tree.child_count(a), 2);
    assert_eq!(tree.child_at(a, 1), Some(c));
    assert_eq!(tree.child_at(a, 2), None);
}

#[test]
fn adding_below_an_unknown_parent_does_nothing() {
    let mut tree = Tree::new();
    assert_eq!(tree.add(Entity(5)), None);
    assert_eq!(tree.len(), 1);
    assert_eq!(tree.traversal(), vec![Entity::root()]);
}

#[test]
fn z_index_is_inherited_unless_styled() {
    let (tree, a, b, c, d) = family();
    let mut cx = Context::new();
    cx.style.set_inline(a, Property::ZOrder, Value::Integer(3));
    cx.style.set_inline(c, Property::ZOrder, Value::Integer(-2));
    apply_z_ordering(&mut cx, &tree);
    assert_eq!(cx.cache.get_z_index(Entity::root()), 0);
    assert_eq!(cx.cache.get_z_index(a), 3);
    assert_eq!(cx.cache.get_z_index(b), 3);
    assert_eq!(cx.cache.get_z_index(d), 3);
    assert_eq!(cx.cache.get_z_index(c), -2);
}

#[test]
fn draw_order_is_a_stable_sort() {
    let (tree, a, b, c, d) = family();
    let mut cx = Context::new();
    cx.cache.set_z_index(a, 1);
    cx.cache.set_z_index(b, 0);
    cx.cache.set_z_index(c, 1);
    cx.cache.set_z_index(d, -1);
    let order = tree.traversal();
    assert_eq!(sort_by_level(&cx.cache.z_index, &order), vec![d, Entity::root(), b, a, c]);
}

#[test]
fn display_off_reaches_every_descendant() {
    let (tree, a, b, c, d) = family();
    let mut cx = Context::new();
    cx.style.set_inline(a, Property::Display, Value::Display(Display::Off));
    cx.style.set_inline(b, Property::Display, Value::Display(Display::Flex));
    cx.style.set_inline(d, Property::Display, Value::Display(Display::Flex));
    apply_z_ordering(&mut cx, &tree);
    apply_visibility(&mut cx, &tree);
    assert_eq!(cx.cache.get_display(Entity::root()), Display::Flex);
    assert_eq!(cx.cache.get_display(a), Display::Off);
    assert_eq!(cx.cache.get_display(b), Display::Off);
    assert_eq!(cx.cache.get_display(c), Display::Off);
    assert_eq!(cx.cache.get_display(d), Display::Off);
}

#[test]
fn invisibility_is_inherited() {
    let (tree, a, b, c, d) = family();
    let mut cx = Context::new();
    cx.style.set_inline(b, Property::Visibility, Value::Visibility(Visibility::Invisible));
    cx.style.set_inline(d, Property::Visibility, Value::Visibility(Visibility::Visible));
    apply_z_ordering(&mut cx, &tree);
    apply_visibility(&mut cx, &tree);
    assert_eq!(cx.cache.get_visibility(a), Visibility::Visible);
    assert_eq!(cx.cache.get_visibility(b), Visibility::Invisible);
    assert_eq!(cx.cache.get_visibility(d), Visibility::Invisible);
    assert_eq!(cx.cache.get_visibility(c), Visibility::Visible);
    assert_eq!(cx.cache.get_display(d), Display::Flex);
}

#[test]
fn child_with_a_lower_z_index_inherits_within_the_same_pass() {
    let (tree, a, b, _, d) = family();
    let mut cx = Context::new();
    cx.style.set_inline(a, Property::Display, Value::Display(Display::Off));
    cx.style.set_inline(a, Property::Visibility, Value::Visibility(Visibility::Invisible));
    cx.style.set_inline(b, Property::ZOrder, Value::Integer(-1));
    apply_z_ordering(&mut cx, &tree);
    assert_eq!(cx.cache.get_z_index(b), -1);
    apply_visibility(&mut cx, &tree);
    assert_eq!(cx.cache.get_display(a), Display::Off);
    assert_eq!(cx.cache.get_display(b), Display::Off);
    assert_eq!(cx.cache.get_display(d), Display::Off);
    assert_eq!(cx.cache.get_visibility(b), Visibility::Invisible);
    assert_eq!(cx.cache.get_visibility(d), Visibility::Invisible);
}

#[test]
fn stale_cache_of_a_parent_with_a_higher_z_index_is_not_inherited() {
    let mut tree = Tree::new();
    let p = tree.add(Entity::root()).unwrap();
    let c = tree.add(p).unwrap();
    let mut cx = Context::new();
    cx.cache.set_z_index(Entity::root(), 0);
    cx.cache.set_z_index(p, 5);
    cx.cache.set_z_index(c, 1);
    cx.cache.set_display(Entity::root(), Display::Flex);
    cx.cache.set_display(p, Display::Flex);
    cx.cache.set_display(c, Display::Flex);
    cx.style.set_inline(p, Property::Display, Value::Display(Display::Off));
    apply_visibility(&mut cx, &tree);
    assert_eq!(cx.cache.get_display(p), Display::Off);
    assert_eq!(cx.cache.get_display(c), Display::Off);
    assert_eq!(cx.cache.get_z_index(p), 5);
    assert_eq!(cx.cache.get_z_index(c), 1);
}

#[test]
fn draw_levels_keep_children_behind_their_parents() {
    let (tree, a, b, c, d) = family();
    let mut cx = Context::new();
    cx.cache.set_z_index(a, 1);
    cx.cache.set_z_index(b, 0);
    cx.cache.set_z_index(c, 3);
    cx.cache.set_z_index(d, -1);
    let levels = levels_of(&cx.cache, &tree);
    assert_eq!(levels, vec![0, 1, 1, 3, 1]);
    let order = tree.traversal();
    assert_eq!(sort_by_level(&levels, &order), vec![Entity::root(), a, b, d, c]);
    cx.cache.set_z_index(b, 4);
    cx.cache.set_z_index(d, 2);
    let levels = levels_of(&cx.cache, &tree);
    assert_eq!(levels, vec![0, 1, 4, 3, 4]);
    assert_eq!(sort_by_level(&levels, &order), vec![Entity::root(), a, c, b, d]);
}

#[test]
fn where_z_ascends_the_draw_order_is_the_order_by_z_index() {
    let (tree, a, b, c, d) = family();
    let mut cx = Context::new();
    cx.cache.set_z_index(a, 2);
    cx.cache.set_z_index(b, 5);
    cx.cache.set_z_index(c, 3);
    cx.cache.set_z_index(d, 5);
    let order = tree.traversal();
    let levels = levels_of(&cx.cache, &tree);
    assert_eq!(sort_by_level(&levels, &order), sort_by_level(&cx.cache.z_index, &order));
    assert_eq!(sort_by_level(&levels, &order), vec![Entity::root(), a, c, b, d]);
}

#[test]
fn well_formed_trees_are_told_from_others() {
    let (mut tree, a, b, _, _) = family();
    assert!(Tree::new().is_wf());
    assert!(tree.is_wf());
    assert!(tree.remove(b));
    assert!(tree.is_wf());
    tree.add(a).unwrap();
    assert!(tree.is_wf());

    let broken = |change: &dyn Fn(&mut Tree)| {
        let (mut t, _, _, _, _) = family();
        change(&mut t);
        t.is_wf()
    };
    assert!(!broken(&|t| t.parent[0] = Some(Entity(1))));
    assert!(!broken(&|t| t.parent[1] = Some(Entity(2))));
    assert!(!broken(&|t| t.parent[3] = Some(Entity(2))));
    assert!(!broken(&|t| t.parent[4] = None));
    assert!(!broken(&|t| t.children[1].push(Entity(2))));
    assert!(!broken(&|t| t.children[1].push(Entity(9))));
    assert!(!broken(&|t| t.children[2].clear()));
    assert!(!broken(&|t| {
        t.children.pop();
    }));
    assert!(!broken(&|t| {
        t.parent.clear();
        t.children.clear();
    }));
}

#[test]
fn passes_leave_the_root_alone() {
    let (tree, _, _, _, _) = family();
    let mut cx = Context::new();
    cx.cache.set_z_index(Entity::root(), 9);
    cx.cache.set_display(Entity::root(), Display::Off);
    cx.style.set_inline(Entity::root(), Property::ZOrder, Value::Integer(1));
    apply_z_ordering(&mut cx, &tree);
    apply_visibility(&mut cx, &tree);
    assert_eq!(cx.cache.get_z_index(Entity::root()), 9);
    assert_eq!(cx.cache.get_display(Entity::root()), Display::Off);
    assert_eq!(cx.cache.get_z_index(Entity(1)), 9);
    assert_eq!(cx.cache.get_display(Entity(4)), Display::Off);
}

#[test]
fn traversal_holds_every_entity_once() {
    let mut tree = Tree::new();
    let a = tree.add(Entity::root()).unwrap();
    let b = tree.add(Entity::root()).unwrap();
    let c = tree.add(a).unwrap();
    let d = tree.add(b).unwrap();
    let e = tree.add(a).unwrap();
    let order = tree.traversal();
    assert_eq!(order, vec![Entity::root(), a, c, e, b, d]);
    let mut seen = order.iter().map(|x| x.index()).collect::<Vec<usize>>();
    seen.sort();
    assert_eq!(seen, vec![0, 1, 2, 3, 4, 5]);
    for (i, x) in order.iter().enumerate().skip(1) {
        let parent = tree.get_parent(*x).unwrap();
        assert!(order[..i].contains(&parent));
    }
}

#[test]
fn without_styles_every_entity_has_the_roots_z_index() {
    let (tree, a, b, c, d) = family();
    let mut cx = Context::new();
    cx.cache.set_z_index(Entity::root(), 7);
    cx.cache.set_z_index(b, 99);
    apply_z_ordering(&mut cx, &tree);
    for e in [a, b, c, d] {
        assert_eq!(cx.cache.get_z_index(e), 7);
    }
}

#[test]
fn forgotten_entity_reads_as_never_seen() {
    let (tree, a, b, _, _) = family();
    let mut cx = Context::new();
    cx.style.set_inline(a, Property::ZOrder, Value::Integer(3));
    cx.style.set_inline(a, Property::Display, Value::Display(Display::Off));
    apply_z_ordering(&mut cx, &tree);
    apply_visibility(&mut cx, &tree);
    assert_eq!(cx.cache.get_z_index(a), 3);
    assert_eq!(cx.cache.get_display(a), Display::Off);
    cx.style.forget(a);
    cx.cache.forget(a);
    assert_eq!(cx.style.get(a, Property::ZOrder), None);
    assert_eq!(cx.style.get(a, Property::Display), None);
    assert_eq!(cx.cache.get_z_index(a), 0);
    assert_eq!(cx.cache.get_display(a), Display::Flex);
    assert_eq!(cx.cache.get_visibility(a), Visibility::Visible);
    assert_eq!(cx.cache.get_z_index(b), 3);
    cx.style.forget(Entity(500));
    cx.cache.forget(Entity(500));
    assert_eq!(cx.cache.get_z_index(Entity(500)), 0);
}

#[test]
fn second_visibility_pass_changes_nothing() {
    let (tree, a, b, c, d) = family();
    let mut cx = Context::new();
    cx.style.set_inline(a, Property::ZOrder, Value::Integer(1));
    cx.style.set_inline(d, Property::ZOrder, Value::Integer(-5));
    cx.style.set_inline(b, Property::Visibility, Value::Visibility(Visibility::Invisible));
    cx.style.set_inline(c, Property::Display, Value::Display(Display::Off));
    apply_z_ordering(&mut cx, &tree);
    apply_visibility(&mut cx, &tree);
    let first: Vec<(Visibility, Display)> =
        [a, b, c, d].iter().map(|e| (cx.cache.get_visibility(*e), cx.cache.get_display(*e))).collect();
    apply_z_ordering(&mut cx, &tree);
    apply_visibility(&mut cx, &tree);
    let second: Vec<(Visibility, Display)> =
        [a, b, c, d].iter().map(|e| (cx.cache.get_visibility(*e), cx.cache.get_display(*e))).collect();
    assert_eq!(first, second);
    assert_eq!(
        first,
        vec![
            (Visibility::Visible, Display::Flex),
            (Visibility::Invisible, Display::Flex),
            (Visibility::Visible, Display::Off),
            (Visibility::Invisible, Display::Flex),
        ]
    );
}

#[test]
fn removed_subtree_is_no_longer_visited() {
    let (mut tree, a, b, c, d) = family();
    assert!(tree.remove(b));
    assert_eq!(tree.traversal(), vec![Entity::root(), a, c]);
    assert_eq!(tree.get_parent(b), None);
    assert_eq!(tree.get_parent(d), Some(b));
    assert_eq!(tree.child_count(a), 1);
    assert_eq!(tree.child_at(a, 0), Some(c));
    assert!(!tree.remove(b));
    assert!(!tree.remove(Entity::root()));
    assert!(!tree.remove(Entity(40)));
    let e = tree.add(a).unwrap();
    assert_eq!(e, Entity(5));
    assert_eq!(tree.traversal(), vec![Entity::root(), a, c, e]);
    let below_removed = tree.add(d).unwrap();
    assert_eq!(tree.traversal(), vec![Entity::root(), a, c, e]);
    assert_eq!(tree.get_parent(below_removed), Some(d));
}

#[test]
fn passes_skip_what_was_removed() {
    let (mut tree, a, b, c, d) = family();
    let mut cx = Context::new();
    cx.style.set_inline(a, Property::ZOrder, Value::Integer(4));
    cx.style.set_inline(a, Property::Display, Value::Display(Display::Off));
    assert!(tree.remove(b));
    apply_z_ordering(&mut cx, &tree);
    apply_visibility(&mut cx, &tree);
    assert_eq!(cx.cache.get_z_index(c), 4);
    assert_eq!(cx.cache.get_display(c), Display::Off);
    assert_eq!(cx.cache.get_z_index(b), 0);
    assert_eq!(cx.cache.get_z_index(d), 0);
    assert_eq!(cx.cache.get_display(b), Display::Flex);
    assert_eq!(cx.cache.get_display(d), Display::Flex);
}
