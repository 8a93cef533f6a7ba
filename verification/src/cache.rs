use vstd::prelude::*;
use crate::tree::Entity;
use crate::value::{Display, Visibility};

verus! {

/// The entry at `i` of a table that reads as `fill` wherever it holds nothing.
pub open spec fn at<T>(s: Seq<T>, i: int, fill: T) -> T {
    if 0 <= i < s.len() {
        s[i]
    } else {
        fill
    }
}

/// The table `s` after `v` was written at `i`: the table grows with `fill`
/// as far as it must, and no other entry changes.
pub open spec fn stored<T>(s: Seq<T>, i: int, v: T, fill: T) -> Seq<T> {
    Seq::new(
        if i < s.len() {
            s.len()
        } else {
            (i + 1) as nat
        },
        |j: int|
            if j == i {
                v
            } else if j < s.len() {
                s[j]
            } else {
                fill
            },
    )
}

/// Reads entry `i` of a table.
pub fn read_at<T: Copy>(table: &Vec<T>, i: usize, fill: T) -> (r: T)
    ensures
        r == at(table@, i as int, fill),
{
    if i < table.len() {
        table[i]
    } else {
        fill
    }
}

/// Writes entry `i` of a table.
pub fn store_at<T: Copy>(table: &mut Vec<T>, i: usize, v: T, fill: T)
    ensures
        final(table)@ == stored(old(table)@, i as int, v, fill),
{
    while table.len() <= i
        invariant
            table@.len() >= old(table)@.len(),
            forall|j: int| 0 <= j < old(table)@.len() ==> table@[j] == old(table)@[j],
            forall|j: int| old(table)@.len() <= j < table@.len() ==> table@[j] == fill,
            old(table)@.len() <= i ==> table@.len() <= i + 1,
            old(table)@.len() > i ==> table@.len() == old(table)@.len(),
        decreases i + 1 - table@.len(),
    {
        table.push(fill);
    }
    table[i] = v;
    assert(table@ =~= stored(old(table)@, i as int, v, fill));
}

/// State that the passes derive from the tree and the style store, one entry
/// per entity. An entity without an entry reads as z-index 0, visible and shown.
#[derive(Debug)]
pub struct CachedData {
    pub z_index: Vec<i32>,
    pub visibility: Vec<Visibility>,
    pub display: Vec<Display>,
}

impl CachedData {
    pub open spec fn z(&self, e: Entity) -> i32 {
        at(self.z_index@, e.0 as int, 0i32)
    }

    pub open spec fn visible(&self, e: Entity) -> Visibility {
        at(self.visibility@, e.0 as int, Visibility::Visible)
    }

    pub open spec fn shown(&self, e: Entity) -> Display {
        at(self.display@, e.0 as int, Display::Flex)
    }

    pub fn new() -> (c: CachedData)
        ensures
            c.z_index@.len() == 0,
            c.visibility@.len() == 0,
            c.display@.len() == 0,
    {
        CachedData { z_index: Vec::new(), visibility: Vec::new(), display: Vec::new() }
    }

    /// Forgets what was derived for `e`, which then reads as an entity that
    /// was never seen.
    pub fn forget(&mut self, e: Entity)
        ensures
            forall|x: Entity| x != e ==> final(self).z(x) == old(self).z(x),
            forall|x: Entity| x != e ==> final(self).visible(x) == old(self).visible(x),
            forall|x: Entity| x != e ==> final(self).shown(x) == old(self).shown(x),
            final(self).z(e) == 0,
            final(self).visible(e) == Visibility::Visible,
            final(self).shown(e) == Display::Flex,
    {
        if e.0 < self.z_index.len() {
            self.z_index[e.0] = 0i32;
        }
        if e.0 < self.visibility.len() {
            self.visibility[e.0] = Visibility::Visible;
        }
        if e.0 < self.display.len() {
            self.display[e.0] = Display::Flex;
        }
    }

    pub fn get_z_index(&self, e: Entity) -> (r: i32)
        ensures
            r == self.z(e),
    {
        read_at(&self.z_index, e.0, 0i32)
    }

    pub fn set_z_index(&mut self, e: Entity, z: i32)
        ensures
            final(self).z_index@ == stored(old(self).z_index@, e.0 as int, z, 0i32),
            final(self).visibility == old(self).visibility,
            final(self).display == old(self).display,
    {
        store_at(&mut self.z_index, e.0, z, 0i32);
    }

    pub fn get_visibility(&self, e: Entity) -> (r: Visibility)
        ensures
            r == self.visible(e),
    {
        read_at(&self.visibility, e.0, Visibility::Visible)
    }

    pub fn set_visibility(&mut self, e: Entity, v: Visibility)
        ensures
            final(self).visibility@ == stored(
                old(self).visibility@,
                e.0 as int,
                v,
                Visibility::Visible,
            ),
            final(self).z_index == old(self).z_index,
            final(self).display == old(self).display,
    {
        store_at(&mut self.visibility, e.0, v, Visibility::Visible);
    }

    pub fn get_display(&self, e: Entity) -> (r: Display)
        ensures
            r == self.shown(e),
    {
        read_at(&self.display, e.0, Display::Flex)
    }

    pub fn set_display(&mut self, e: Entity, d: Display)
        ensures
            final(self).display@ == stored(old(self).display@, e.0 as int, d, Display::Flex),
            final(self).z_index == old(self).z_index,
            final(self).visibility == old(self).visibility,
    {
        store_at(&mut self.display, e.0, d, Display::Flex);
    }
}

} // verus!
