use vstd::prelude::*;
use crate::property::Property;
use crate::selector::Selector;
use crate::value::Value;

verus! {

/// One assignment of a rule: a property and the value that the rule gives it.
#[derive(Clone, Copy, Debug)]
pub struct Declaration {
    pub property: Property,
    pub value: Value,
}

/// A style rule: a chain of selector fragments, read from the last to the
/// first, and the assignments it grants to the entities that the chain matches.
/// A rule's priority is its position in the rule table: later rules win.
#[derive(Debug)]
pub struct Rule {
    pub id: u64,
    pub selectors: Vec<Selector>,
    pub properties: Vec<Declaration>,
}

/// The value that a list of assignments gives to `p`: that of the last
/// assignment to `p`, if there is one.
pub open spec fn declared(decls: Seq<Declaration>, p: Property) -> Option<Value>
    decreases decls.len(),
{
    if decls.len() == 0 {
        None
    } else if decls.last().property == p {
        Some(decls.last().value)
    } else {
        declared(decls.drop_last(), p)
    }
}

/// The value that the rule at position `r` of the table gives to `p`.
pub open spec fn rule_value(rules: Seq<Rule>, r: usize, p: Property) -> Option<Value> {
    if r < rules.len() {
        declared(rules[r as int].properties@, p)
    } else {
        None
    }
}

/// The value that wins `p` among the matched rules: that of the last rule in
/// the list that assigns `p`.
pub open spec fn winner(rules: Seq<Rule>, matched: Seq<usize>, p: Property) -> Option<Value>
    decreases matched.len(),
{
    if matched.len() == 0 {
        None
    } else {
        match rule_value(rules, matched.last(), p) {
            Some(v) => Some(v),
            None => winner(rules, matched.drop_last(), p),
        }
    }
}

impl Rule {
    /// The value that this rule gives to `p`.
    pub fn value_of(&self, p: Property) -> (r: Option<Value>)
        ensures
            r == declared(self.properties@, p),
    {
        let mut i: usize = self.properties.len();
        assert(self.properties@.take(i as int) =~= self.properties@);
        while i > 0
            invariant
                i <= self.properties@.len(),
                declared(self.properties@, p) == declared(self.properties@.take(i as int), p),
            decreases i,
        {
            let d = self.properties[i - 1];
            proof {
                let s = self.properties@.take(i as int);
                assert(s.last() == self.properties@[i - 1]);
                assert(s.drop_last() =~= self.properties@.take(i - 1));
            }
            if d.property == p {
                return Some(d.value);
            }
            i -= 1;
        }
        None
    }
}

/// Finds the value that wins `p` among the matched rules.
pub fn find_winner(rules: &Vec<Rule>, matched: &Vec<usize>, p: Property) -> (r: Option<Value>)
    ensures
        r == winner(rules@, matched@, p),
{
    let mut i: usize = matched.len();
    assert(matched@.take(i as int) =~= matched@);
    while i > 0
        invariant
            i <= matched@.len(),
            winner(rules@, matched@, p) == winner(rules@, matched@.take(i as int), p),
        decreases i,
    {
        let r = matched[i - 1];
        proof {
            let s = matched@.take(i as int);
            assert(s.last() == matched@[i - 1]);
            assert(s.drop_last() =~= matched@.take(i - 1));
        }
        if r < rules.len() {
            match rules[r].value_of(p) {
                Some(v) => {
                    return Some(v);
                },
                None => {},
            }
        }
        i -= 1;
    }
    None
}

} // verus!
