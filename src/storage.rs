//! Storage backends for components: a keyed container from entity index to
//! component value, with three interchangeable implementations.
use std::collections::BTreeMap;
use std::collections::HashMap;
use vstd::prelude::*;

verus! {

/// A keyed container from entity index to component value.
///
/// `insert` is an upsert, `delete` is idempotent, and `get` finds a value
/// exactly when one is held under the key.
pub trait ComponentStorage<C>: Sized {
    /// The entries held, by entity index.
    spec fn contents(&self) -> Map<usize, C>;

    fn new() -> (s: Self)
        ensures
            s.contents() == Map::<usize, C>::empty(),
    ;

    fn insert(&mut self, entity: usize, c: C)
        requires
            entity < usize::MAX,
        ensures
            final(self).contents() == old(self).contents().insert(entity, c),
    ;

    fn delete(&mut self, entity: usize)
        ensures
            final(self).contents() == old(self).contents().remove(entity),
    ;

    fn get(&self, entity: usize) -> (r: Option<&C>)
        ensures
            r.is_some() == self.contents().contains_key(entity),
            r.is_some() ==> *r.unwrap() == self.contents()[entity],
    ;

    fn get_mut(&mut self, entity: usize) -> (r: Option<&mut C>)
        ensures
            r.is_some() == old(self).contents().contains_key(entity),
            r.is_some() ==> *r.unwrap() == old(self).contents()[entity],
            r.is_some() ==> final(self).contents() == old(self).contents().insert(
                entity,
                *final(r.unwrap()),
            ),
            r.is_none() ==> final(self).contents() == old(self).contents(),
    ;
}

/// Dense backend: slot `i` holds the component of entity `i`, if any.
pub type VecStorage<C> = Vec<Option<C>>;

/// Sparse backend, keyed by hash.
pub type HashMapStorage<C> = HashMap<usize, C>;

/// Sorted backend: iterates in key order.
pub type BTreeMapStorage<C> = BTreeMap<usize, C>;

/// The entries of a dense slot sequence: every filled slot, by its position.
pub open spec fn dense_contents<C>(slots: Seq<Option<C>>) -> Map<usize, C> {
    Map::new(
        |i: usize| (i as int) < slots.len() && slots[i as int] is Some,
        |i: usize| slots[i as int]->0,
    )
}

/// Stores `c` in slot `entity`, first growing the slots with empty ones up to
/// it; the length becomes the larger of the old length and `entity + 1`.
pub fn dense_insert<C>(slots: &mut Vec<Option<C>>, entity: usize, c: C)
    requires
        entity < usize::MAX,
    ensures
        final(slots)@.len() == if entity < old(slots)@.len() {
            old(slots)@.len() as int
        } else {
            entity + 1
        },
        final(slots)@[entity as int] == Some(c),
        forall|j: int| 0 <= j < old(slots)@.len() && j != entity ==> final(slots)@[j] == old(slots)@[j],
        forall|j: int| old(slots)@.len() <= j < entity ==> final(slots)@[j] is None,
        dense_contents(final(slots)@) == dense_contents(old(slots)@).insert(entity, c),
{
    let ghost pre = slots@;
    while slots.len() <= entity
        invariant
            entity < usize::MAX,
            pre.len() <= slots@.len(),
            slots@.len() <= entity + 1 || slots@.len() == pre.len(),
            forall|i: int| 0 <= i < pre.len() ==> slots@[i] == pre[i],
            forall|i: int| pre.len() <= i < slots@.len() ==> slots@[i] is None,
        decreases entity + 1 - slots@.len(),
    {
        slots.push(None);
    }
    slots.set(entity, Some(c));
    assert(dense_contents(slots@) =~= dense_contents(pre).insert(entity, c));
}

/// Empties slot `entity`, if there is one; the length never changes.
pub fn dense_delete<C>(slots: &mut Vec<Option<C>>, entity: usize)
    ensures
        final(slots)@ == if entity < old(slots)@.len() {
            old(slots)@.update(entity as int, None)
        } else {
            old(slots)@
        },
        final(slots)@.len() == old(slots)@.len(),
        dense_contents(final(slots)@) == dense_contents(old(slots)@).remove(entity),
{
    let ghost pre = slots@;
    if entity < slots.len() {
        slots.set(entity, None);
    }
    assert(dense_contents(slots@) =~= dense_contents(pre).remove(entity));
}

impl<C> ComponentStorage<C> for Vec<Option<C>> {
    open spec fn contents(&self) -> Map<usize, C> {
        dense_contents(self@)
    }

    fn new() -> (s: Self) {
        let s: Vec<Option<C>> = Vec::new();
        assert(dense_contents(s@) =~= Map::<usize, C>::empty());
        s
    }

    fn insert(&mut self, entity: usize, c: C) {
        dense_insert(self, entity, c);
    }

    fn delete(&mut self, entity: usize) {
        dense_delete(self, entity);
    }

    fn get(&self, entity: usize) -> (r: Option<&C>) {
        if entity >= self.len() {
            None
        } else {
            self[entity].as_ref()
        }
    }

    fn get_mut(&mut self, entity: usize) -> (r: Option<&mut C>) {
        if entity >= self.len() {
            None
        } else {
            let slot = &mut self[entity];
            slot.as_mut()
        }
    }
}

impl<C> ComponentStorage<C> for HashMap<usize, C> {
    open spec fn contents(&self) -> Map<usize, C> {
        self@
    }

    fn new() -> (s: Self) {
        HashMap::new()
    }

    fn insert(&mut self, entity: usize, c: C) {
        let _ = HashMap::insert(self, entity, c);
    }

    fn delete(&mut self, entity: usize) {
        let _ = self.remove(&entity);
    }

    fn get(&self, entity: usize) -> (r: Option<&C>) {
        HashMap::get(self, &entity)
    }

    fn get_mut(&mut self, entity: usize) -> (r: Option<&mut C>) {
        hash_map_get_mut(self, entity)
    }
}

/// Relies on `HashMap::get_mut`: a mutable borrow of the value under the key,
/// present exactly when the key is, through which the entry is rewritten.
#[verifier::external_body]
fn hash_map_get_mut<C>(m: &mut HashMap<usize, C>, k: usize) -> (r: Option<&mut C>)
    ensures
        r.is_some() == old(m)@.contains_key(k),
        r.is_some() ==> *r.unwrap() == old(m)@[k],
        r.is_some() ==> final(m)@ == old(m)@.insert(k, *final(r.unwrap())),
        r.is_none() ==> final(m)@ == old(m)@,
{
    m.get_mut(&k)
}

impl<C> ComponentStorage<C> for BTreeMap<usize, C> {
    open spec fn contents(&self) -> Map<usize, C> {
        self@
    }

    fn new() -> (s: Self) {
        BTreeMap::new()
    }

    fn insert(&mut self, entity: usize, c: C) {
        let _ = BTreeMap::insert(self, entity, c);
    }

    fn delete(&mut self, entity: usize) {
        let _ = self.remove(&entity);
    }

    fn get(&self, entity: usize) -> (r: Option<&C>) {
        BTreeMap::get(self, &entity)
    }

    fn get_mut(&mut self, entity: usize) -> (r: Option<&mut C>) {
        btree_map_get_mut(self, entity)
    }
}

/// Relies on `BTreeMap::get_mut`: a mutable borrow of the value under the key,
/// present exactly when the key is, through which the entry is rewritten.
#[verifier::external_body]
fn btree_map_get_mut<C>(m: &mut BTreeMap<usize, C>, k: usize) -> (r: Option<&mut C>)
    ensures
        r.is_some() == old(m)@.contains_key(k),
        r.is_some() ==> *r.unwrap() == old(m)@[k],
        r.is_some() ==> final(m)@ == old(m)@.insert(k, *final(r.unwrap())),
        r.is_none() ==> final(m)@ == old(m)@,
{
    m.get_mut(&k)
}

} // verus!
