use vstd::prelude::*;
use crate::property::{Property, PROPERTY_COUNT};
use crate::rule::{find_winner, winner, Rule};
use crate::tree::Entity;
use crate::value::{same_value, Value};

verus! {

/// What the store holds for one property of one entity: nothing, a value that
/// was written inline, or a value that the cascade linked from a rule.
#[derive(Clone, Copy, PartialEq, Eq, Structural, Debug)]
pub enum Slot {
    Unset,
    Inline(Value),
    Linked(Value),
}

impl Slot {
    /// The resolved value.
    pub open spec fn value(self) -> Option<Value> {
        match self {
            Slot::Unset => None,
            Slot::Inline(v) => Some(v),
            Slot::Linked(v) => Some(v),
        }
    }

    /// The slot after the cascade has linked it again, `won` being the value
    /// that wins among the matched rules: an inline value stays, anything else
    /// gives way to `won`.
    pub open spec fn relinked(self, won: Option<Value>) -> Slot {
        match self {
            Slot::Inline(v) => Slot::Inline(v),
            _ => match won {
                Some(v) => Slot::Linked(v),
                None => Slot::Unset,
            },
        }
    }

    pub fn get(self) -> (r: Option<Value>)
        ensures
            r == self.value(),
    {
        match self {
            Slot::Unset => None,
            Slot::Inline(v) => Some(v),
            Slot::Linked(v) => Some(v),
        }
    }
}

/// Everything the store holds for one entity.
#[derive(Debug)]
pub struct EntityStyle {
    pub element: Option<u64>,
    pub classes: Vec<u64>,
    pub pseudo_classes: Option<u32>,
    pub slots: Vec<Slot>,
}

/// The mathematical content of an entity's row.
pub struct Row {
    pub element: Option<u64>,
    pub classes: Seq<u64>,
    pub pseudo_classes: Option<u32>,
    pub slots: Seq<Slot>,
}

impl View for EntityStyle {
    type V = Row;

    open spec fn view(&self) -> Row {
        Row {
            element: self.element,
            classes: self.classes@,
            pseudo_classes: self.pseudo_classes,
            slots: self.slots@,
        }
    }
}

/// The row of an entity of which nothing is known.
pub open spec fn blank_row() -> Row {
    Row {
        element: None,
        classes: Seq::empty(),
        pseudo_classes: None,
        slots: Seq::new(PROPERTY_COUNT as nat, |i: int| Slot::Unset),
    }
}

impl EntityStyle {
    /// A row without element, classes, flags or values.
    pub fn blank() -> (r: EntityStyle)
        ensures
            r@ == blank_row(),
    {
        let mut slots: Vec<Slot> = Vec::new();
        let mut i: usize = 0;
        while i < PROPERTY_COUNT
            invariant
                i <= PROPERTY_COUNT,
                slots@.len() == i,
                forall|j: int| 0 <= j < i ==> slots@[j] == Slot::Unset,
            decreases PROPERTY_COUNT - i,
        {
            slots.push(Slot::Unset);
            i += 1;
        }
        let r = EntityStyle { element: None, classes: Vec::new(), pseudo_classes: None, slots };
        proof {
            assert(r@.slots =~= blank_row().slots);
            assert(r@.classes =~= blank_row().classes);
        }
        r
    }
}

/// The style store: the rule table, in priority order, and one row per entity.
#[derive(Debug)]
pub struct Style {
    pub rules: Vec<Rule>,
    pub rows: Vec<EntityStyle>,
}

impl Style {
    /// Every row has a slot for every property.
    pub open spec fn wf(&self) -> bool {
        forall|i: int|
            0 <= i < self.rows@.len() ==> (#[trigger] self.rows@[i]).slots@.len() == PROPERTY_COUNT
    }

    /// The row of `e`. An entity without a row reads as a blank one.
    pub open spec fn row(&self, e: Entity) -> Row {
        if e.0 < self.rows@.len() {
            self.rows@[e.0 as int]@
        } else {
            blank_row()
        }
    }

    pub open spec fn slot(&self, e: Entity, p: Property) -> Slot {
        self.row(e).slots[p.spec_index()]
    }

    /// The resolved value of `p` for `e`, if it has one.
    pub open spec fn value(&self, e: Entity, p: Property) -> Option<Value> {
        self.slot(e, p).value()
    }

    /// A store without rules or rows.
    pub fn new() -> (s: Style)
        ensures
            s.wf(),
            s.rules@.len() == 0,
            forall|e: Entity| s.row(e) == blank_row(),
    {
        Style { rules: Vec::new(), rows: Vec::new() }
    }

    /// Whether every row has a slot for every property. A store that was
    /// only ever changed through its methods always has.
    pub fn is_wf(&self) -> (r: bool)
        ensures
            r == self.wf(),
    {
        let mut i: usize = 0;
        while i < self.rows.len()
            invariant
                i <= self.rows@.len(),
                forall|j: int|
                    0 <= j < i ==> (#[trigger] self.rows@[j]).slots@.len() == PROPERTY_COUNT,
            decreases self.rows@.len() - i,
        {
            if self.rows[i].slots.len() != PROPERTY_COUNT {
                return false;
            }
            i += 1;
        }
        true
    }

    /// Appends a rule to the table, where it has priority over all earlier ones.
    pub fn add_rule(&mut self, rule: Rule) -> (at: usize)
        requires
            old(self).wf(),
        ensures
            final(self).wf(),
            at == old(self).rules@.len(),
            final(self).rules@ == old(self).rules@.push(rule),
            final(self).rows == old(self).rows,
    {
        let at = self.rules.len();
        self.rules.push(rule);
        at
    }

    /// Puts a rule at position `at` of the table; the rules from there on move
    /// back by one. A position beyond the end appends the rule. Returns the
    /// position that the rule has taken.
    pub fn insert_rule(&mut self, at: usize, rule: Rule) -> (taken: usize)
        requires
            old(self).wf(),
        ensures
            final(self).wf(),
            final(self).rows == old(self).rows,
            taken == (if at <= old(self).rules@.len() {
                at as int
            } else {
                old(self).rules@.len() as int
            }),
            final(self).rules@ == old(self).rules@.insert(taken as int, rule),
    {
        let taken = if at <= self.rules.len() {
            at
        } else {
            self.rules.len()
        };
        self.rules.insert(taken, rule);
        taken
    }

    /// Takes the rule at position `at` out of the table; the rules behind it
    /// move up by one. A position beyond the table changes nothing.
    pub fn remove_rule(&mut self, at: usize) -> (r: Option<Rule>)
        requires
            old(self).wf(),
        ensures
            final(self).wf(),
            final(self).rows == old(self).rows,
            at < old(self).rules@.len() ==> r == Some(old(self).rules@[at as int])
                && final(self).rules@ == old(self).rules@.remove(at as int),
            at >= old(self).rules@.len() ==> r is None && final(self).rules == old(self).rules,
    {
        if at < self.rules.len() {
            Some(self.rules.remove(at))
        } else {
            None
        }
    }

    /// Makes sure that `e` has a row, without changing what the store says.
    fn reserve(&mut self, e: Entity)
        requires
            old(self).wf(),
        ensures
            final(self).wf(),
            final(self).rules == old(self).rules,
            e.0 < final(self).rows@.len(),
            forall|x: Entity| final(self).row(x) == old(self).row(x),
    {
        while self.rows.len() <= e.0
            invariant
                self.wf(),
                self.rules == old(self).rules,
                forall|x: Entity| self.row(x) == old(self).row(x),
            decreases e.0 + 1 - self.rows@.len(),
        {
            let ghost before = *self;
            let blank = EntityStyle::blank();
            self.rows.push(blank);
            proof {
                assert forall|x: Entity| self.row(x) == before.row(x) by {
                    if x.0 < before.rows@.len() {
                        assert(self.rows@[x.0 as int] == before.rows@[x.0 as int]);
                    }
                }
            }
        }
    }

    /// The resolved value of `p` for `e`; `None` where nothing is stored, and
    /// for an entity that the store has never seen.
    pub fn get(&self, e: Entity, p: Property) -> (r: Option<Value>)
        requires
            self.wf(),
        ensures
            r == self.value(e, p),
    {
        if e.0 < self.rows.len() {
            self.rows[e.0].slots[p.index()].get()
        } else {
            None
        }
    }

    /// Writes `slot` for property `p` of entity `e`.
    fn put(&mut self, e: Entity, p: Property, slot: Slot)
        requires
            old(self).wf(),
        ensures
            final(self).wf(),
            final(self).rules == old(self).rules,
            forall|x: Entity| x != e ==> final(self).row(x) == old(self).row(x),
            final(self).row(e) == (Row {
                slots: old(self).row(e).slots.update(p.spec_index(), slot),
                ..old(self).row(e)
            }),
    {
        self.reserve(e);
        let ghost mid = *self;
        let i = p.index();
        self.rows[e.0].slots[i] = slot;
        proof {
            assert forall|x: Entity| x != e implies self.row(x) == mid.row(x) by {
                if x.0 < mid.rows@.len() {
                    assert(self.rows@[x.0 as int] == mid.rows@[x.0 as int]);
                }
            }
            assert(self.row(e).slots =~= mid.row(e).slots.update(p.spec_index(), slot));
            assert(self.row(e).classes == mid.row(e).classes);
        }
    }

    /// Writes an inline value, which the cascade never overrides.
    pub fn set_inline(&mut self, e: Entity, p: Property, v: Value)
        requires
            old(self).wf(),
        ensures
            final(self).wf(),
            final(self).rules == old(self).rules,
            forall|x: Entity| x != e ==> final(self).row(x) == old(self).row(x),
            final(self).row(e) == (Row {
                slots: old(self).row(e).slots.update(p.spec_index(), Slot::Inline(v)),
                ..old(self).row(e)
            }),
    {
        self.put(e, p, Slot::Inline(v));
    }

    /// Removes whatever is stored for `p` of `e`, an inline value included.
    pub fn clear(&mut self, e: Entity, p: Property)
        requires
            old(self).wf(),
        ensures
            final(self).wf(),
            final(self).rules == old(self).rules,
            forall|x: Entity| x != e ==> final(self).row(x) == old(self).row(x),
            final(self).row(e) == (Row {
                slots: old(self).row(e).slots.update(p.spec_index(), Slot::Unset),
                ..old(self).row(e)
            }),
    {
        self.put(e, p, Slot::Unset);
    }

    /// Forgets everything about `e`: its element, classes, flags and values.
    /// This is what becomes of an entity that leaves the tree.
    pub fn forget(&mut self, e: Entity)
        requires
            old(self).wf(),
        ensures
            final(self).wf(),
            final(self).rules == old(self).rules,
            forall|x: Entity| x != e ==> final(self).row(x) == old(self).row(x),
            final(self).row(e) == blank_row(),
    {
        if e.0 < self.rows.len() {
            let ghost mid = *self;
            let blank = EntityStyle::blank();
            self.rows[e.0] = blank;
            proof {
                assert forall|x: Entity| x != e implies self.row(x) == mid.row(x) by {
                    if x.0 < mid.rows@.len() {
                        assert(self.rows@[x.0 as int] == mid.rows@[x.0 as int]);
                    }
                }
            }
        }
    }

    /// Sets the element name of `e`.
    pub fn set_element(&mut self, e: Entity, element: Option<u64>)
        requires
            old(self).wf(),
        ensures
            final(self).wf(),
            final(self).rules == old(self).rules,
            forall|x: Entity| x != e ==> final(self).row(x) == old(self).row(x),
            final(self).row(e) == (Row { element: element, ..old(self).row(e) }),
    {
        self.reserve(e);
        let ghost mid = *self;
        self.rows[e.0].element = element;
        proof {
            assert forall|x: Entity| x != e implies self.row(x) == mid.row(x) by {
                if x.0 < mid.rows@.len() {
                    assert(self.rows@[x.0 as int] == mid.rows@[x.0 as int]);
                }
            }
        }
    }

    /// Sets the classes of `e`.
    pub fn set_classes(&mut self, e: Entity, classes: Vec<u64>)
        requires
            old(self).wf(),
        ensures
            final(self).wf(),
            final(self).rules == old(self).rules,
            forall|x: Entity| x != e ==> final(self).row(x) == old(self).row(x),
            final(self).row(e) == (Row { classes: classes@, ..old(self).row(e) }),
    {
        self.reserve(e);
        let ghost mid = *self;
        self.rows[e.0].classes = classes;
        proof {
            assert forall|x: Entity| x != e implies self.row(x) == mid.row(x) by {
                if x.0 < mid.rows@.len() {
                    assert(self.rows@[x.0 as int] == mid.rows@[x.0 as int]);
                }
            }
        }
    }

    /// Sets the pseudo-class flags of `e`; `None` declares no flag set at all.
    pub fn set_pseudo_classes(&mut self, e: Entity, flags: Option<u32>)
        requires
            old(self).wf(),
        ensures
            final(self).wf(),
            final(self).rules == old(self).rules,
            forall|x: Entity| x != e ==> final(self).row(x) == old(self).row(x),
            final(self).row(e) == (Row { pseudo_classes: flags, ..old(self).row(e) }),
    {
        self.reserve(e);
        let ghost mid = *self;
        self.rows[e.0].pseudo_classes = flags;
        proof {
            assert forall|x: Entity| x != e implies self.row(x) == mid.row(x) by {
                if x.0 < mid.rows@.len() {
                    assert(self.rows@[x.0 as int] == mid.rows@[x.0 as int]);
                }
            }
        }
    }

    /// Resolves property `p` of `e` against the matched rules: an inline value
    /// stays; otherwise the last matched rule that assigns `p` gives the value;
    /// with neither the property is left unset. Returns whether the resolved
    /// value is another than before.
    pub fn link(&mut self, e: Entity, p: Property, matched: &Vec<usize>) -> (changed: bool)
        requires
            old(self).wf(),
        ensures
            final(self).wf(),
            final(self).rules == old(self).rules,
            forall|x: Entity| x != e ==> final(self).row(x) == old(self).row(x),
            final(self).row(e) == (Row {
                slots: old(self).row(e).slots.update(
                    p.spec_index(),
                    old(self).slot(e, p).relinked(winner(old(self).rules@, matched@, p)),
                ),
                ..old(self).row(e)
            }),
            changed == (final(self).value(e, p) != old(self).value(e, p)),
    {
        let before: Slot = if e.0 < self.rows.len() {
            self.rows[e.0].slots[p.index()]
        } else {
            Slot::Unset
        };
        let won = find_winner(&self.rules, matched, p);
        let after: Slot = match before {
            Slot::Inline(v) => Slot::Inline(v),
            _ => match won {
                Some(v) => Slot::Linked(v),
                None => Slot::Unset,
            },
        };
        self.put(e, p, after);
        !same_value(before.get(), after.get())
    }
}

} // verus!
