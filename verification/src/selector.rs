use vstd::prelude::*;

verus! {

/// Pseudo-class flags. A set of them is the bitwise or of its members.
pub const HOVER: u32 = 1;

pub const OVER: u32 = 2;

pub const ACTIVE: u32 = 4;

pub const FOCUS: u32 = 8;

pub const DISABLED: u32 = 16;

pub const CHECKED: u32 = 32;

pub const SELECTED: u32 = 64;

pub const CUSTOM: u32 = 128;

/// Which entity a selector fragment is tested against, relative to the entity
/// that the fragment to its right matched.
#[derive(Clone, Copy, PartialEq, Eq, Structural, Debug, Hash)]
pub enum SelectorRelation {
    /// The same entity: no step in the tree.
    Same,
    /// The nearest proper ancestor that matches.
    Ancestor,
    /// The parent.
    Parent,
}

/// One fragment of a selector chain. Element and class names are interned:
/// a name is the number that the caller gave it.
#[derive(Debug)]
pub struct Selector {
    pub element: Option<u64>,
    pub classes: Vec<u64>,
    pub pseudo_classes: u32,
    pub asterisk: bool,
    pub relation: SelectorRelation,
}

/// The element test: a fragment that names an element asks for that element.
pub open spec fn element_ok(declared: Option<u64>, required: Option<u64>) -> bool {
    required is None || declared == required
}

/// The class test: every class that the fragment names is one of the entity's.
pub open spec fn classes_ok(declared: Seq<u64>, required: Seq<u64>) -> bool {
    forall|i: int| 0 <= i < required.len() ==> declared.contains(#[trigger] required[i])
}

/// The pseudo-class test: an entity that declares a flag set fails a fragment
/// that requires flags of which the entity has none.
pub open spec fn pseudo_ok(declared: Option<u32>, required: u32) -> bool {
    match declared {
        Some(flags) => required == 0 || (required & flags) != 0,
        None => true,
    }
}

/// The test of a universal fragment: it fails where the entity has at least
/// one flag and shares none with the flags that the fragment requires. So a
/// universal fragment that requires no flag fails every entity that has one.
pub open spec fn universal_ok(declared: Option<u32>, required: u32) -> bool {
    match declared {
        Some(flags) => flags == 0 || (flags & required) != 0,
        None => true,
    }
}

/// Whether an entity with the given element, classes and pseudo-class flags
/// satisfies a fragment. A universal fragment looks at the flags alone, and
/// is stricter about them than any other; the fragment's relation plays no part.
pub open spec fn fragment_matches(
    element: Option<u64>,
    classes: Seq<u64>,
    pseudo: Option<u32>,
    sel: &Selector,
) -> bool {
    if sel.asterisk {
        universal_ok(pseudo, sel.pseudo_classes)
    } else {
        element_ok(element, sel.element) && classes_ok(classes, sel.classes@) && pseudo_ok(
            pseudo,
            sel.pseudo_classes,
        )
    }
}

/// Whether `c` is one of `classes`.
pub fn has_class(classes: &Vec<u64>, c: u64) -> (r: bool)
    ensures
        r == classes@.contains(c),
{
    let mut i: usize = 0;
    while i < classes.len()
        invariant
            i <= classes@.len(),
            forall|j: int| 0 <= j < i ==> classes@[j] != c,
        decreases classes@.len() - i,
    {
        if classes[i] == c {
            return true;
        }
        i += 1;
    }
    false
}

/// Whether every one of `required` is one of `declared`.
pub fn has_classes(declared: &Vec<u64>, required: &Vec<u64>) -> (r: bool)
    ensures
        r == classes_ok(declared@, required@),
{
    let mut i: usize = 0;
    while i < required.len()
        invariant
            i <= required@.len(),
            forall|j: int| 0 <= j < i ==> declared@.contains(#[trigger] required@[j]),
        decreases required@.len() - i,
    {
        if !has_class(declared, required[i]) {
            return false;
        }
        i += 1;
    }
    true
}

/// Tests one fragment against an entity's element, classes and flags.
pub fn matches_fragment(
    element: Option<u64>,
    classes: &Vec<u64>,
    pseudo: Option<u32>,
    sel: &Selector,
) -> (r: bool)
    ensures
        r == fragment_matches(element, classes@, pseudo, sel),
{
    if sel.asterisk {
        return match pseudo {
            Some(flags) => flags == 0 || (flags & sel.pseudo_classes) != 0,
            None => true,
        };
    }
    match sel.element {
        Some(required) => {
            match element {
                Some(name) => {
                    if name != required {
                        return false;
                    }
                },
                None => {
                    return false;
                },
            }
        },
        None => {},
    }
    if !has_classes(classes, &sel.classes) {
        return false;
    }
    match pseudo {
        Some(flags) => sel.pseudo_classes == 0 || (sel.pseudo_classes & flags) != 0,
        None => true,
    }
}

} // verus!
