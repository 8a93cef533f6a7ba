use vizia_style::property::Property;
use vizia_style::rule::{Declaration, Rule};
use vizia_style::selector::{Selector, SelectorRelation, FOCUS, HOVER};
use vizia_style::style_system::{
    apply_styles, check_match, match_rules, matches_rule, restyle, Changes, Context,
};
use vizia_style::tree::{Entity, Tree};
use vizia_style::value::{Unit, Value};

fn px(v: f32) -> Value {
    Value::Length(Unit::Pixels, v.to_bits())
}

fn class_selector(class: u64, relation: SelectorRelation) -> Selector {
    Selector { element: None, classes: vec![class], pseudo_classes: 0, asterisk: false, relation }
}

fn element_selector(element: u64, relation: SelectorRelation) -> Selector {
    Selector {
        element: Some(element),
        classes: Vec::new(),
        pseudo_classes: 0,
        asterisk: false,
        relation,
    }
}

fn star(pseudo_classes: u32) -> Selector {
    Selector {
        element: None,
        classes: Vec::new(),
        pseudo_classes,
        asterisk: true,
        relation: SelectorRelation::Same,
    }
}

fn rule(id: u64, selectors: Vec<Selector>, property: Property, value: Value) -> Rule {
    Rule { id, selectors, properties: vec![Declaration { property, value }] }
}

/// root -> a -> b -> c
fn chain() -> (Tree, Entity, Entity, Entity) {
    let mut tree = Tree::new();
    let a = tree.add(Entity::root()).unwrap();
    let b = tree.add(a).unwrap();
    let c = tree.add(b).unwrap();
    (tree, a, b, c)
}

#[test]
fn later_rule_wins() {
    let (tree, a, _, _) = chain();
    let mut cx = Context::new();
    cx.style.set_classes(a, vec![7]);
    cx.style.add_rule(rule(1, vec![class_selector(7, SelectorRelation::Same)], Property::Width, px(100.0)));
    cx.style.add_rule(rule(2, vec![class_selector(7, SelectorRelation::Same)], Property::Width, px(200.0)));
    let changes = apply_styles(&mut cx, &tree);
    assert_eq!(cx.style.get(a, Property::Width), Some(px(200.0)));
    assert_eq!(changes, Changes { relayout: true, redraw: true });
    assert_eq!(match_rules(&cx, &tree, a), vec![0, 1]);
}

#[test]
fn inline_value_beats_every_rule() {
    let (tree, a, _, _) = chain();
    let mut cx = Context::new();
    cx.style.set_classes(a, vec![7]);
    cx.style.set_inline(a, Property::Width, px(50.0));
    cx.style.add_rule(rule(1, vec![class_selector(7, SelectorRelation::Same)], Property::Width, px(100.0)));
    cx.style.add_rule(rule(2, vec![class_selector(7, SelectorRelation::Same)], Property::Width, px(200.0)));
    let changes = apply_styles(&mut cx, &tree);
    assert_eq!(cx.style.get(a, Property::Width), Some(px(50.0)));
    assert_eq!(changes, Changes { relayout: false, redraw: false });
}

#[test]
fn last_assignment_within_a_rule_wins() {
    let (tree, a, _, _) = chain();
    let mut cx = Context::new();
    cx.style.add_rule(Rule {
        id: 1,
        selectors: vec![star(0)],
        properties: vec![
            Declaration { property: Property::Height, value: px(1.0) },
            Declaration { property: Property::Width, value: px(2.0) },
            Declaration { property: Property::Height, value: px(3.0) },
        ],
    });
    apply_styles(&mut cx, &tree);
    assert_eq!(cx.style.get(a, Property::Height), Some(px(3.0)));
    assert_eq!(cx.style.get(a, Property::Width), Some(px(2.0)));
    assert_eq!(cx.style.get(a, Property::Left), None);
}

#[test]
fn second_pass_changes_nothing() {
    let (tree, a, b, c) = chain();
    let mut cx = Context::new();
    cx.style.set_classes(a, vec![7]);
    cx.style.add_rule(rule(1, vec![class_selector(7, SelectorRelation::Same)], Property::Width, px(100.0)));
    cx.style.add_rule(rule(2, vec![star(0)], Property::BackgroundColor, Value::Other(255)));
    let first = apply_styles(&mut cx, &tree);
    assert_eq!(first, Changes { relayout: true, redraw: true });
    let seen: Vec<Option<Value>> = [a, b, c]
        .iter()
        .flat_map(|e| [cx.style.get(*e, Property::Width), cx.style.get(*e, Property::BackgroundColor)])
        .collect();
    let second = apply_styles(&mut cx, &tree);
    assert_eq!(second, Changes { relayout: false, redraw: false });
    let again: Vec<Option<Value>> = [a, b, c]
        .iter()
        .flat_map(|e| [cx.style.get(*e, Property::Width), cx.style.get(*e, Property::BackgroundColor)])
        .collect();
    assert_eq!(seen, again);
    assert_eq!(again[0], Some(px(100.0)));
    assert_eq!(again[3], Some(Value::Other(255)));
}

#[test]
fn paint_only_property_asks_for_redraw_only() {
    let (tree, a, _, _) = chain();
    let mut cx = Context::new();
    cx.style.add_rule(rule(1, vec![star(0)], Property::FontColor, Value::Other(1)));
    let changes = apply_styles(&mut cx, &tree);
    assert_eq!(changes, Changes { relayout: false, redraw: true });
    assert_eq!(cx.style.get(a, Property::FontColor), Some(Value::Other(1)));
}

#[test]
fn cursor_and_overflow_ask_for_nothing() {
    let (tree, a, _, _) = chain();
    let mut cx = Context::new();
    cx.style.add_rule(rule(1, vec![star(0)], Property::Cursor, Value::Other(3)));
    cx.style.add_rule(rule(2, vec![star(0)], Property::Overflow, Value::Other(1)));
    let changes = apply_styles(&mut cx, &tree);
    assert_eq!(changes, Changes { relayout: false, redraw: false });
    assert_eq!(cx.style.get(a, Property::Cursor), Some(Value::Other(3)));
}

#[test]
fn rule_that_no_longer_matches_unsets_the_value() {
    let (tree, a, _, _) = chain();
    let mut cx = Context::new();
    cx.style.set_classes(a, vec![7]);
    cx.style.add_rule(rule(1, vec![class_selector(7, SelectorRelation::Same)], Property::Width, px(100.0)));
    apply_styles(&mut cx, &tree);
    assert_eq!(cx.style.get(a, Property::Width), Some(px(100.0)));
    cx.style.set_classes(a, Vec::new());
    let changes = apply_styles(&mut cx, &tree);
    assert_eq!(cx.style.get(a, Property::Width), None);
    assert_eq!(changes, Changes { relayout: true, redraw: true });
}

#[test]
fn root_is_never_styled() {
    let (tree, a, _, _) = chain();
    let mut cx = Context::new();
    cx.style.add_rule(rule(1, vec![star(0)], Property::Width, px(10.0)));
    apply_styles(&mut cx, &tree);
    assert_eq!(cx.style.get(Entity::root(), Property::Width), None);
    assert_eq!(cx.style.get(a, Property::Width), Some(px(10.0)));
}

#[test]
fn rule_without_fragments_matches_nothing() {
    let (tree, a, _, _) = chain();
    let mut cx = Context::new();
    cx.style.add_rule(rule(1, Vec::new(), Property::Width, px(10.0)));
    let changes = apply_styles(&mut cx, &tree);
    assert_eq!(cx.style.get(a, Property::Width), None);
    assert_eq!(changes, Changes { relayout: false, redraw: false });
    assert!(match_rules(&cx, &tree, a).is_empty());
}

#[test]
fn universal_selector_and_pseudo_classes() {
    let (_, a, _, _) = chain();
    let mut cx = Context::new();
    assert!(check_match(&cx, a, &star(0)));
    cx.style.set_pseudo_classes(a, Some(HOVER));
    assert!(!check_match(&cx, a, &star(FOCUS)));
    assert!(check_match(&cx, a, &star(HOVER)));
    assert!(check_match(&cx, a, &star(FOCUS | HOVER)));
    assert!(!check_match(&cx, a, &star(0)));
    cx.style.set_pseudo_classes(a, Some(0));
    assert!(check_match(&cx, a, &star(FOCUS)));
    assert!(check_match(&cx, a, &star(0)));
    cx.style.set_pseudo_classes(a, None);
    assert!(check_match(&cx, a, &star(FOCUS)));
    assert!(check_match(&cx, a, &star(0)));
}

#[test]
fn universal_fragment_is_stricter_than_a_plain_one() {
    let (_, a, _, _) = chain();
    let mut cx = Context::new();
    cx.style.set_pseudo_classes(a, Some(HOVER));
    let plain = Selector {
        element: None,
        classes: Vec::new(),
        pseudo_classes: 0,
        asterisk: false,
        relation: SelectorRelation::Same,
    };
    assert!(check_match(&cx, a, &plain));
    assert!(!check_match(&cx, a, &star(0)));
}

#[test]
fn pseudo_class_fragment() {
    let (_, a, _, _) = chain();
    let mut cx = Context::new();
    let mut wants_focus = class_selector(7, SelectorRelation::Same);
    wants_focus.pseudo_classes = FOCUS;
    cx.style.set_classes(a, vec![7]);
    assert!(check_match(&cx, a, &wants_focus));
    cx.style.set_pseudo_classes(a, Some(HOVER));
    assert!(!check_match(&cx, a, &wants_focus));
    assert!(check_match(&cx, a, &class_selector(7, SelectorRelation::Same)));
    cx.style.set_pseudo_classes(a, Some(HOVER | FOCUS));
    assert!(check_match(&cx, a, &wants_focus));
    cx.style.set_pseudo_classes(a, Some(0));
    assert!(!check_match(&cx, a, &wants_focus));
}

#[test]
fn element_and_class_fragments() {
    let (_, a, b, _) = chain();
    let mut cx = Context::new();
    cx.style.set_element(a, Some(3));
    cx.style.set_classes(a, vec![1, 2]);
    assert!(check_match(&cx, a, &element_selector(3, SelectorRelation::Same)));
    assert!(!check_match(&cx, a, &element_selector(4, SelectorRelation::Same)));
    assert!(!check_match(&cx, b, &element_selector(3, SelectorRelation::Same)));
    assert!(check_match(&cx, a, &class_selector(2, SelectorRelation::Same)));
    assert!(!check_match(&cx, a, &class_selector(5, SelectorRelation::Same)));
    assert!(!check_match(&cx, b, &class_selector(2, SelectorRelation::Same)));
    let both = Selector {
        element: Some(3),
        classes: vec![2, 1],
        pseudo_classes: 0,
        asterisk: false,
        relation: SelectorRelation::Same,
    };
    assert!(check_match(&cx, a, &both));
    let bare = Selector {
        element: None,
        classes: Vec::new(),
        pseudo_classes: 0,
        asterisk: false,
        relation: SelectorRelation::Same,
    };
    assert!(check_match(&cx, b, &bare));
    assert!(check_match(&cx, Entity(99), &bare));
}

#[test]
fn ancestor_relation_skips_to_the_first_match() {
    let (tree, a, b, c) = chain();
    let mut cx = Context::new();
    cx.style.set_classes(a, vec![7]);
    cx.style.set_element(c, Some(9));
    let r = rule(
        1,
        vec![class_selector(7, SelectorRelation::Ancestor), element_selector(9, SelectorRelation::Same)],
        Property::Width,
        px(1.0),
    );
    assert!(matches_rule(&cx, &tree, &r, c));
    assert!(!matches_rule(&cx, &tree, &r, b));
    assert!(!matches_rule(&cx, &tree, &r, a));
    cx.style.add_rule(r);
    apply_styles(&mut cx, &tree);
    assert_eq!(cx.style.get(c, Property::Width), Some(px(1.0)));
    assert_eq!(cx.style.get(b, Property::Width), None);
}

#[test]
fn parent_relation_asks_for_the_direct_parent() {
    let (tree, a, b, c) = chain();
    let mut cx = Context::new();
    cx.style.set_classes(a, vec![7]);
    let r = rule(
        1,
        vec![class_selector(7, SelectorRelation::Parent), star(0)],
        Property::Width,
        px(1.0),
    );
    assert!(matches_rule(&cx, &tree, &r, b));
    assert!(!matches_rule(&cx, &tree, &r, c));
    assert!(!matches_rule(&cx, &tree, &r, a));
    assert!(!matches_rule(&cx, &tree, &r, Entity::root()));
}

#[test]
fn chain_of_three_fragments() {
    let (tree, a, b, c) = chain();
    let mut cx = Context::new();
    cx.style.set_classes(a, vec![1]);
    cx.style.set_classes(b, vec![2]);
    cx.style.set_classes(c, vec![3]);
    let r = rule(
        1,
        vec![
            class_selector(1, SelectorRelation::Ancestor),
            class_selector(2, SelectorRelation::Parent),
            class_selector(3, SelectorRelation::Same),
        ],
        Property::Width,
        px(1.0),
    );
    assert!(matches_rule(&cx, &tree, &r, c));
    let wrong = rule(
        2,
        vec![
            class_selector(2, SelectorRelation::Ancestor),
            class_selector(2, SelectorRelation::Parent),
            class_selector(3, SelectorRelation::Same),
        ],
        Property::Width,
        px(1.0),
    );
    assert!(!matches_rule(&cx, &tree, &wrong, c));
}

#[test]
fn restyle_reports_one_entity() {
    let (tree, a, b, _) = chain();
    let mut cx = Context::new();
    cx.style.set_classes(b, vec![7]);
    cx.style.add_rule(rule(1, vec![class_selector(7, SelectorRelation::Same)], Property::Left, px(4.0)));
    assert_eq!(restyle(&mut cx, &tree, a), Changes { relayout: false, redraw: false });
    assert_eq!(restyle(&mut cx, &tree, b), Changes { relayout: true, redraw: true });
    assert_eq!(restyle(&mut cx, &tree, b), Changes { relayout: false, redraw: false });
    assert_eq!(cx.style.get(b, Property::Left), Some(px(4.0)));
}

#[test]
fn unknown_entity_reads_unset() {
    let cx = Context::new();
    assert_eq!(cx.style.get(Entity(1234), Property::Width), None);
    assert_eq!(cx.cache.get_z_index(Entity(1234)), 0);
}

#[test]
fn clearing_an_inline_value_lets_rules_in() {
    let (tree, a, _, _) = chain();
    let mut cx = Context::new();
    cx.style.set_inline(a, Property::Width, px(50.0));
    cx.style.add_rule(rule(1, vec![star(0)], Property::Width, px(100.0)));
    apply_styles(&mut cx, &tree);
    assert_eq!(cx.style.get(a, Property::Width), Some(px(50.0)));
    cx.style.clear(a, Property::Width);
    assert_eq!(cx.style.get(a, Property::Width), None);
    apply_styles(&mut cx, &tree);
    assert_eq!(cx.style.get(a, Property::Width), Some(px(100.0)));
}

#[test]
fn property_positions_round_trip() {
    let mut i = 0;
    while let Some(p) = Property::from_index(i) {
        assert_eq!(p.index(), i);
        assert!(!p.affects_layout() || p.affects_paint());
        i += 1;
    }
    assert_eq!(i, vizia_style::property::PROPERTY_COUNT);
    assert_eq!(Property::Display.index(), 0);
    assert!(Property::Width.affects_layout());
    assert!(!Property::BorderColor.affects_layout() && Property::BorderColor.affects_paint());
    assert!(!Property::Cursor.affects_paint());
}

#[test]
fn new_context_is_empty() {
    let cx = Context::new();
    assert!(cx.style.rules.is_empty());
    assert!(cx.style.rows.is_empty());
    assert!(cx.cache.z_index.is_empty());
    assert_eq!(cx.style.get(Entity::root(), Property::Display), None);
}

#[test]
fn later_rule_that_does_not_assign_the_property_does_not_win() {
    let (tree, a, _, _) = chain();
    let mut cx = Context::new();
    cx.style.add_rule(rule(1, vec![star(0)], Property::Width, px(100.0)));
    cx.style.add_rule(rule(2, vec![star(0)], Property::Height, px(7.0)));
    cx.style.add_rule(rule(3, vec![class_selector(9, SelectorRelation::Same)], Property::Width, px(300.0)));
    apply_styles(&mut cx, &tree);
    assert_eq!(cx.style.get(a, Property::Width), Some(px(100.0)));
    assert_eq!(cx.style.get(a, Property::Height), Some(px(7.0)));
    assert_eq!(match_rules(&cx, &tree, a), vec![0, 1]);
}

#[test]
fn styles_reach_entities_added_in_any_shape() {
    let mut tree = Tree::new();
    let a = tree.add(Entity::root()).unwrap();
    let b = tree.add(Entity::root()).unwrap();
    let c = tree.add(a).unwrap();
    let mut cx = Context::new();
    cx.style.add_rule(rule(1, vec![star(0)], Property::Top, px(1.0)));
    apply_styles(&mut cx, &tree);
    for e in [a, b, c] {
        assert_eq!(cx.style.get(e, Property::Top), Some(px(1.0)));
    }
    assert_eq!(cx.style.get(Entity(4), Property::Top), None);
}

#[test]
fn removing_a_rule_lets_the_earlier_one_win() {
    let (tree, a, _, _) = chain();
    let mut cx = Context::new();
    cx.style.add_rule(rule(1, vec![star(0)], Property::Width, px(100.0)));
    let at = cx.style.add_rule(rule(2, vec![star(0)], Property::Width, px(200.0)));
    assert_eq!(at, 1);
    apply_styles(&mut cx, &tree);
    assert_eq!(cx.style.get(a, Property::Width), Some(px(200.0)));
    let removed = cx.style.remove_rule(1).unwrap();
    assert_eq!(removed.id, 2);
    assert!(cx.style.remove_rule(5).is_none());
    let changes = apply_styles(&mut cx, &tree);
    assert_eq!(cx.style.get(a, Property::Width), Some(px(100.0)));
    assert_eq!(changes, Changes { relayout: true, redraw: true });
}

#[test]
fn inserted_rule_takes_its_place_in_the_priority_order() {
    let (tree, a, _, _) = chain();
    let mut cx = Context::new();
    cx.style.add_rule(rule(1, vec![star(0)], Property::Width, px(100.0)));
    assert_eq!(cx.style.insert_rule(0, rule(2, vec![star(0)], Property::Width, px(200.0))), 0);
    apply_styles(&mut cx, &tree);
    assert_eq!(cx.style.get(a, Property::Width), Some(px(100.0)));
    assert_eq!(cx.style.insert_rule(9, rule(3, vec![star(0)], Property::Width, px(300.0))), 2);
    apply_styles(&mut cx, &tree);
    assert_eq!(cx.style.get(a, Property::Width), Some(px(300.0)));
    let ids: Vec<u64> = cx.style.rules.iter().map(|r| r.id).collect();
    assert_eq!(ids, vec![2, 1, 3]);
}

#[test]
fn store_built_through_its_methods_is_well_formed() {
    let (tree, a, _, _) = chain();
    let mut cx = Context::new();
    assert!(cx.style.is_wf());
    cx.style.set_inline(a, Property::Width, px(1.0));
    apply_styles(&mut cx, &tree);
    assert!(cx.style.is_wf());
    cx.style.rows[0].slots.pop();
    assert!(!cx.style.is_wf());
}

#[test]
fn cascade_skips_what_was_removed() {
    let (mut tree, a, b, c) = chain();
    let mut cx = Context::new();
    cx.style.add_rule(rule(1, vec![star(0)], Property::Width, px(10.0)));
    assert!(tree.remove(b));
    let changes = apply_styles(&mut cx, &tree);
    assert_eq!(changes, Changes { relayout: true, redraw: true });
    assert_eq!(cx.style.get(a, Property::Width), Some(px(10.0)));
    assert_eq!(cx.style.get(b, Property::Width), None);
    assert_eq!(cx.style.get(c, Property::Width), None);
}
