//! The runtime: entities, the per-kind component storages, and the operations
//! that read and write them.
use crate::common::{Acceleration, Enemy, Friction, Name, Player, Position, Velocity};
use crate::inventory::{ActiveEffect, Consumable, Inventory, Stackable};
use crate::stats::{Health, Stats};
use crate::storage::{BTreeMapStorage, ComponentStorage, HashMapStorage, VecStorage};
use vstd::prelude::*;

verus! {

/// A handle on one game object.
///
/// `index` is its position in the entity registry and the key under which
/// storages hold its components; `generation` is reserved for slot reuse and
/// is zero; `hash` is the component signature, the OR of the bits of the kinds
/// the entity holds.
#[derive(Clone, Copy, PartialEq, Eq, Structural, PartialOrd, Ord, Hash, Debug)]
pub struct Entity {
    index: usize,
    generation: usize,
    hash: i128,
}

impl Entity {
    pub closed spec fn index(self) -> usize {
        self.index
    }

    pub closed spec fn generation(self) -> usize {
        self.generation
    }

    pub closed spec fn signature(self) -> i128 {
        self.hash
    }

    /// The same handle with another signature.
    pub closed spec fn with_signature(self, hash: i128) -> Entity {
        Entity { hash, ..self }
    }

    pub fn id(&self) -> (r: usize)
        ensures
            r == self.index(),
    {
        self.index
    }
}

/// Copies a vector of plain items.
pub fn copy_items<T: Copy>(v: &Vec<T>) -> (r: Vec<T>)
    ensures
        r@ == v@,
{
    let mut r: Vec<T> = Vec::new();
    let mut i: usize = 0;
    while i < v.len()
        invariant
            i <= v.len(),
            r@ == v@.subrange(0, i as int),
        decreases v.len() - i,
    {
        r.push(v[i]);
        i += 1;
    }
    assert(r@ =~= v@);
    r
}

/// The number of component kinds.
pub const KIND_COUNT: usize = 14;

/// Each kind of component the runtime can hold.
#[derive(Clone, Copy, PartialEq, Eq, Structural, Debug, Hash)]
pub enum ComponentKind {
    Deleted,
    Name,
    Health,
    Stats,
    Inventory,
    Consumable,
    ActiveEffect,
    Stackable,
    Position,
    Velocity,
    Acceleration,
    Friction,
    Player,
    Enemy,
}

impl ComponentKind {
    /// The kind's slot in the per-kind tables.
    pub open spec fn index(self) -> nat {
        match self {
            ComponentKind::Deleted => 0,
            ComponentKind::Name => 1,
            ComponentKind::Health => 2,
            ComponentKind::Stats => 3,
            ComponentKind::Inventory => 4,
            ComponentKind::Consumable => 5,
            ComponentKind::ActiveEffect => 6,
            ComponentKind::Stackable => 7,
            ComponentKind::Position => 8,
            ComponentKind::Velocity => 9,
            ComponentKind::Acceleration => 10,
            ComponentKind::Friction => 11,
            ComponentKind::Player => 12,
            ComponentKind::Enemy => 13,
        }
    }

    pub fn slot(&self) -> (r: usize)
        ensures
            r == self.index(),
            r < KIND_COUNT,
    {
        match self {
            ComponentKind::Deleted => 0,
            ComponentKind::Name => 1,
            ComponentKind::Health => 2,
            ComponentKind::Stats => 3,
            ComponentKind::Inventory => 4,
            ComponentKind::Consumable => 5,
            ComponentKind::ActiveEffect => 6,
            ComponentKind::Stackable => 7,
            ComponentKind::Position => 8,
            ComponentKind::Velocity => 9,
            ComponentKind::Acceleration => 10,
            ComponentKind::Friction => 11,
            ComponentKind::Player => 12,
            ComponentKind::Enemy => 13,
        }
    }
}

/// Distinct kinds have distinct slots.
pub proof fn lemma_kind_index_injective(a: ComponentKind, b: ComponentKind)
    ensures
        a.index() < KIND_COUNT,
        a.index() == b.index() ==> a == b,
{
}

/// A component value of any kind, as the storages hold it.
#[derive(Debug)]
pub enum ComponentValue {
    Deleted(Deleted),
    Name(Name),
    Health(Health),
    Stats(Stats),
    Inventory(Inventory),
    Consumable(Consumable),
    ActiveEffect(ActiveEffect),
    Stackable(Stackable),
    Position(Position),
    Velocity(Velocity),
    Acceleration(Acceleration),
    Friction(Friction),
    Player(Player),
    Enemy(Enemy),
}

impl ComponentValue {
    pub open spec fn kind(self) -> ComponentKind {
        match self {
            ComponentValue::Deleted(_) => ComponentKind::Deleted,
            ComponentValue::Name(_) => ComponentKind::Name,
            ComponentValue::Health(_) => ComponentKind::Health,
            ComponentValue::Stats(_) => ComponentKind::Stats,
            ComponentValue::Inventory(_) => ComponentKind::Inventory,
            ComponentValue::Consumable(_) => ComponentKind::Consumable,
            ComponentValue::ActiveEffect(_) => ComponentKind::ActiveEffect,
            ComponentValue::Stackable(_) => ComponentKind::Stackable,
            ComponentValue::Position(_) => ComponentKind::Position,
            ComponentValue::Velocity(_) => ComponentKind::Velocity,
            ComponentValue::Acceleration(_) => ComponentKind::Acceleration,
            ComponentValue::Friction(_) => ComponentKind::Friction,
            ComponentValue::Player(_) => ComponentKind::Player,
            ComponentValue::Enemy(_) => ComponentKind::Enemy,
        }
    }
}

/// The backend a component kind is stored in.
#[derive(Clone, Copy, PartialEq, Eq, Structural, Debug)]
pub enum StorageKind {
    /// A slot per entity index: for components most entities have.
    Dense,
    /// A hash map: for rare components.
    Sparse,
    /// A sorted map: for components iterated in key order.
    Sorted,
}

/// The storage of one component kind, in the backend the kind chose.
pub enum Storage {
    Dense(VecStorage<ComponentValue>),
    Sparse(HashMapStorage<ComponentValue>),
    Sorted(BTreeMapStorage<ComponentValue>),
}

impl Storage {
    pub open spec fn contents(&self) -> Map<usize, ComponentValue> {
        match self {
            Storage::Dense(s) => s.contents(),
            Storage::Sparse(s) => s.contents(),
            Storage::Sorted(s) => s.contents(),
        }
    }

    pub fn new(kind: StorageKind) -> (s: Storage)
        ensures
            s.contents() == Map::<usize, ComponentValue>::empty(),
    {
        match kind {
            StorageKind::Dense => Storage::Dense(ComponentStorage::new()),
            StorageKind::Sparse => Storage::Sparse(ComponentStorage::new()),
            StorageKind::Sorted => Storage::Sorted(ComponentStorage::new()),
        }
    }

    pub fn insert(&mut self, entity: usize, c: ComponentValue)
        requires
            entity < usize::MAX,
        ensures
            final(self).contents() == old(self).contents().insert(entity, c),
    {
        match self {
            Storage::Dense(s) => ComponentStorage::insert(s, entity, c),
            Storage::Sparse(s) => ComponentStorage::insert(s, entity, c),
            Storage::Sorted(s) => ComponentStorage::insert(s, entity, c),
        }
    }

    pub fn delete(&mut self, entity: usize)
        ensures
            final(self).contents() == old(self).contents().remove(entity),
    {
        match self {
            Storage::Dense(s) => ComponentStorage::delete(s, entity),
            Storage::Sparse(s) => ComponentStorage::delete(s, entity),
            Storage::Sorted(s) => ComponentStorage::delete(s, entity),
        }
    }

    pub fn get(&self, entity: usize) -> (r: Option<&ComponentValue>)
        ensures
            r.is_some() == self.contents().contains_key(entity),
            r.is_some() ==> *r.unwrap() == self.contents()[entity],
    {
        match self {
            Storage::Dense(s) => ComponentStorage::get(s, entity),
            Storage::Sparse(s) => ComponentStorage::get(s, entity),
            Storage::Sorted(s) => ComponentStorage::get(s, entity),
        }
    }

    pub fn get_mut(&mut self, entity: usize) -> (r: Option<&mut ComponentValue>)
        ensures
            r.is_some() == old(self).contents().contains_key(entity),
            r.is_some() ==> *r.unwrap() == old(self).contents()[entity],
            r.is_some() ==> final(self).contents() == old(self).contents().insert(
                entity,
                *final(r.unwrap()),
            ),
            r.is_none() ==> final(self).contents() == old(self).contents(),
    {
        match self {
            Storage::Dense(s) => ComponentStorage::get_mut(s, entity),
            Storage::Sparse(s) => ComponentStorage::get_mut(s, entity),
            Storage::Sorted(s) => ComponentStorage::get_mut(s, entity),
        }
    }
}

/// A record type that entities can hold, tied to one kind and one backend.
pub trait Component: Sized + View {
    spec fn kind() -> ComponentKind;

    fn kind_of() -> (k: ComponentKind)
        ensures
            k == Self::kind(),
    ;

    /// The backend that holds this kind.
    fn storage_kind() -> StorageKind;

    /// The record inside a stored value, when the value is of this kind.
    spec fn project(v: ComponentValue) -> Option<Self>;

    /// The stored value that holds this record.
    spec fn into_value(self) -> ComponentValue;

    fn wrap(self) -> (v: ComponentValue)
        ensures
            v == self.into_value(),
    ;

    fn peek(v: &ComponentValue) -> (r: Option<&Self>)
        ensures
            r.is_some() == Self::project(*v).is_some(),
            r.is_some() ==> *r.unwrap() == Self::project(*v).unwrap(),
    ;

    /// A copy equal to this record in every observable respect.
    fn duplicate(&self) -> (r: Self)
        ensures
            r@ == self@,
    ;

    /// A stored value holds a record of this type exactly when it is of
    /// this kind.
    proof fn lemma_project_kind(v: ComponentValue)
        ensures
            Self::project(v).is_some() == (v.kind() == Self::kind()),
    ;

    /// Storing a record and projecting it back gives the record.
    proof fn lemma_into_value(c: Self)
        ensures
            Self::project(c.into_value()) == Some(c),
            c.into_value().kind() == Self::kind(),
    ;
}

/// A record type that a runtime can hold once, apart from any entity, as a
/// global singleton. Every component type can.
pub trait Resource: Component {}

impl<C: Component> Resource for C {}

/// The marker that soft-deletes an entity.
#[derive(Clone, Copy, PartialEq, Eq, Structural, Debug)]
pub struct Deleted;

impl View for Deleted {
    type V = Deleted;

    open spec fn view(&self) -> Deleted {
        *self
    }
}

impl Component for Deleted {
    open spec fn kind() -> ComponentKind {
        ComponentKind::Deleted
    }

    fn kind_of() -> (k: ComponentKind) {
        ComponentKind::Deleted
    }

    fn storage_kind() -> StorageKind {
        StorageKind::Sorted
    }

    open spec fn project(v: ComponentValue) -> Option<Self> {
        match v {
            ComponentValue::Deleted(c) => Some(c),
            _ => None,
        }
    }

    open spec fn into_value(self) -> ComponentValue {
        ComponentValue::Deleted(self)
    }

    fn wrap(self) -> (v: ComponentValue) {
        ComponentValue::Deleted(self)
    }

    fn peek(v: &ComponentValue) -> (r: Option<&Self>) {
        match v {
            ComponentValue::Deleted(c) => Some(c),
            _ => None,
        }
    }

    fn duplicate(&self) -> (r: Self) {
        *self
    }

    proof fn lemma_project_kind(v: ComponentValue) {
    }

    proof fn lemma_into_value(c: Self) {
    }
}

/// `2^n`, the bit handed to the `n`-th registered kind.
pub open spec fn bit_at(n: nat) -> int
    decreases n,
{
    if n == 0 {
        1
    } else {
        2 * bit_at((n - 1) as nat)
    }
}

/// The number of filled slots.
pub open spec fn count_filled(s: Seq<Option<i128>>) -> nat
    decreases s.len(),
{
    if s.len() == 0 {
        0
    } else {
        count_filled(s.drop_last()) + if s.last() is Some {
            1nat
        } else {
            0nat
        }
    }
}

proof fn lemma_count_filled_bound(s: Seq<Option<i128>>)
    ensures
        count_filled(s) <= s.len(),
    decreases s.len(),
{
    if s.len() > 0 {
        lemma_count_filled_bound(s.drop_last());
    }
}

proof fn lemma_count_filled_fill(s: Seq<Option<i128>>, j: int, v: i128)
    requires
        0 <= j < s.len(),
        s[j] is None,
    ensures
        count_filled(s.update(j, Some(v))) == count_filled(s) + 1,
    decreases s.len(),
{
    let t = s.update(j, Some(v));
    if j == s.len() - 1 {
        assert(t.drop_last() =~= s.drop_last());
    } else {
        assert(t.drop_last() =~= s.drop_last().update(j, Some(v)));
        lemma_count_filled_fill(s.drop_last(), j, v);
    }
}

proof fn lemma_bit_at_positive(n: nat)
    ensures
        bit_at(n) >= 1,
    decreases n,
{
    if n > 0 {
        lemma_bit_at_positive((n - 1) as nat);
    }
}

proof fn lemma_bit_at_bound(n: nat)
    requires
        n <= KIND_COUNT,
    ensures
        bit_at(n) <= bit_at(KIND_COUNT as nat),
        bit_at(KIND_COUNT as nat) == 0x4000,
    decreases KIND_COUNT - n,
{
    reveal_with_fuel(bit_at, 15);
    if n < KIND_COUNT {
        lemma_bit_at_bound(n + 1);
        lemma_bit_at_positive(n);
    }
}

/// Whether `b` has exactly one bit set.
pub open spec fn is_bit(b: i128) -> bool {
    0 < b && b & ((b - 1) as i128) == 0
}

/// How setting and clearing single bits below `hb` act on a signature `s`.
proof fn lemma_bit_facts(s: i128, b: i128, c: i128, hb: i128)
    requires
        0 <= s < hb,
        is_bit(b),
        is_bit(c),
        b < hb,
        is_bit(hb),
    ensures
        b != c ==> b & c == 0,
        ((s | b) & c != 0) == ((s & c != 0) || (b & c != 0)),
        (s | b) & b != 0,
        b != c ==> (((s & !b) & c) != 0) == ((s & c) != 0),
        (s & !b) & b == 0,
        0 <= (s | b) < hb,
        0 <= (s & !b) < hb,
        0 & c == 0,
{
    assert(b != c ==> b & c == 0) by (bit_vector)
        requires
            0 < b,
            0 < c,
            b & ((b - 1) as i128) == 0,
            c & ((c - 1) as i128) == 0,
    ;
    assert(((s | b) & c != 0) == ((s & c != 0) || (b & c != 0))) by (bit_vector);
    assert((s | b) & b != 0) by (bit_vector)
        requires
            0 < b,
    ;
    assert(b != c ==> (((s & !b) & c) != 0) == ((s & c) != 0)) by (bit_vector)
        requires
            0 < b,
            0 < c,
            b & ((b - 1) as i128) == 0,
            c & ((c - 1) as i128) == 0,
    ;
    assert((s & !b) & b == 0) by (bit_vector);
    assert(0 <= (s | b) < hb) by (bit_vector)
        requires
            0 <= s < hb,
            0 < b < hb,
            hb & ((hb - 1) as i128) == 0,
    ;
    assert(0 <= (s & !b) && (s & !b) < hb) by (bit_vector)
        requires
            0 <= s < hb,
            0 < b,
    ;
    assert(0 & c == 0) by (bit_vector);
}

/// Doubling a single bit below `2^30` gives a single bit.
proof fn lemma_bit_double(b: i128)
    requires
        is_bit(b),
        b < 0x4000_0000,
    ensures
        is_bit((b * 2) as i128),
        below_bit_clear(b),
{
    assert(((b * 2) as i128) & ((b * 2 - 1) as i128) == 0) by (bit_vector)
        requires
            b & ((b - 1) as i128) == 0,
            0 < b < 0x4000_0000,
    ;
    assert(forall|x: i128| 0 <= x < b ==> #[trigger] (x & b) == 0) by (bit_vector)
        requires
            b & ((b - 1) as i128) == 0,
            0 < b,
    ;
}

/// Every value below the single bit `b` lacks that bit.
pub open spec fn below_bit_clear(b: i128) -> bool {
    forall|x: i128| 0 <= x < b ==> #[trigger] (x & b) == 0
}

/// What a `GameState` holds, as mathematical values.
pub struct WorldView {
    /// The entity registry, synchronised entries first, then those created
    /// since the last synchronisation; entry `i` has index `i`.
    pub records: Seq<Entity>,
    /// How many registry entries full-table scans visit.
    pub synced: nat,
    /// The signature bit of each registered kind.
    pub bits: Map<ComponentKind, i128>,
    /// The entries of each registered kind's storage.
    pub stores: Map<ComponentKind, Map<usize, ComponentValue>>,
    /// The singleton value held for each kind, apart from any entity.
    pub resources: Map<ComponentKind, ComponentValue>,
}

impl WorldView {
    pub open spec fn registered(self, k: ComponentKind) -> bool {
        self.stores.contains_key(k)
    }

    /// Whether the entity with index `i` has not been soft-deleted.
    pub open spec fn alive(self, i: usize) -> bool {
        !self.stores[ComponentKind::Deleted].contains_key(i)
    }

    /// Whether the storage of `k` holds an entry for index `i`.
    pub open spec fn holds(self, k: ComponentKind, i: usize) -> bool {
        self.stores.contains_key(k) && self.stores[k].contains_key(i)
    }

    /// The `C` stored for index `i`, alive or not.
    pub open spec fn component<C: Component>(self, i: usize) -> Option<C> {
        if self.holds(C::kind(), i) {
            C::project(self.stores[C::kind()][i])
        } else {
            None
        }
    }

    /// The `C` of a living entity with index `i`.
    pub open spec fn value<C: Component>(self, i: usize) -> Option<C> {
        if self.alive(i) {
            self.component::<C>(i)
        } else {
            None
        }
    }

    /// Whether the entity with index `i` is alive and holds a `C`.
    pub open spec fn has<C: Component>(self, i: usize) -> bool {
        self.alive(i) && self.holds(C::kind(), i)
    }

    /// Whether a full-table scan over `C` visits index `i`.
    pub open spec fn visible<C: Component>(self, i: int) -> bool {
        0 <= i < self.synced && self.has::<C>(i as usize)
    }

    /// The indices below `n` that a scan over `C` visits, in order.
    pub open spec fn scan_upto<C: Component>(self, n: nat) -> Seq<usize>
        decreases n,
    {
        if n == 0 {
            Seq::empty()
        } else {
            let s = self.scan_upto::<C>((n - 1) as nat);
            if self.visible::<C>(n - 1) {
                s.push((n - 1) as usize)
            } else {
                s
            }
        }
    }

    /// The indices a full-table scan over `C` visits, in order.
    pub open spec fn scan<C: Component>(self) -> Seq<usize> {
        self.scan_upto::<C>(self.synced)
    }

    pub open spec fn signature(self, i: usize) -> i128 {
        self.records[i as int].signature()
    }

    /// This state with `v` stored as kind `k` of index `i`, and `k`'s bit
    /// set in `i`'s signature.
    pub open spec fn inserted(self, k: ComponentKind, i: usize, v: ComponentValue) -> WorldView {
        WorldView {
            records: self.records.update(
                i as int,
                self.records[i as int].with_signature(self.signature(i) | self.bits[k]),
            ),
            stores: self.stores.insert(k, self.stores[k].insert(i, v)),
            ..self
        }
    }

    /// This state with kind `k` of index `i` removed, and `k`'s bit cleared
    /// in `i`'s signature.
    pub open spec fn deleted(self, k: ComponentKind, i: usize) -> WorldView {
        WorldView {
            records: self.records.update(
                i as int,
                self.records[i as int].with_signature(self.signature(i) & !self.bits[k]),
            ),
            stores: self.stores.insert(k, self.stores[k].remove(i)),
            ..self
        }
    }

    /// This state with the entry of kind `k` for index `i` replaced by `v`.
    pub open spec fn replaced(self, k: ComponentKind, i: usize, v: ComponentValue) -> WorldView {
        WorldView { stores: self.stores.insert(k, self.stores[k].insert(i, v)), ..self }
    }

    /// Whether each signature has the bit of a registered kind exactly when
    /// its entity holds that kind.
    pub open spec fn signatures_exact(self) -> bool {
        forall|i: usize, k: ComponentKind|
            #![trigger self.holds(k, i)]
            #![trigger self.signature(i), self.bits[k]]
            (i as int) < self.records.len() && self.bits.contains_key(k) ==> ((self.signature(i)
                & self.bits[k]) != 0) == self.holds(k, i)
    }

    /// The invariants every state of the runtime keeps.
    pub open spec fn wf(self) -> bool {
        &&& self.synced <= self.records.len()
        &&& self.records.len() < usize::MAX
        &&& forall|i: int|
            0 <= i < self.records.len() ==> #[trigger] self.records[i].index() == i
                && self.records[i].generation() == 0
        &&& self.registered(ComponentKind::Deleted)
        &&& self.bits.dom() == self.stores.dom()
        &&& forall|k: ComponentKind, i: usize| #[trigger]
            self.holds(k, i) ==> i < self.records.len() && self.stores[k][i].kind() == k
        &&& forall|k: ComponentKind| #[trigger]
            self.resources.contains_key(k) ==> self.resources[k].kind() == k
        &&& forall|k: ComponentKind| #[trigger]
            self.bits.contains_key(k) ==> is_bit(self.bits[k])
        &&& forall|a: ComponentKind, b: ComponentKind|
            #[trigger] self.bits.contains_key(a) && #[trigger] self.bits.contains_key(b) && a
                != b ==> self.bits[a] != self.bits[b]
    }
}

/// `post` is what a full-table update over `C` with `f` makes of `pre`: every
/// entry that the scan visits is replaced by a result of `f` on the entity and
/// the old value; everything else stays.
pub open spec fn all_updated<C: Component, F: Fn(Entity, &C) -> C>(
    pre: WorldView,
    post: WorldView,
    f: F,
) -> bool {
    &&& post.records == pre.records
    &&& post.synced == pre.synced
    &&& post.bits == pre.bits
    &&& post.stores.dom() == pre.stores.dom()
    &&& forall|k: ComponentKind|
        k != C::kind() && #[trigger] pre.stores.contains_key(k) ==> post.stores[k] == pre.stores[k]
    &&& post.stores[C::kind()].dom() == pre.stores[C::kind()].dom()
    &&& forall|i: usize|
        #[trigger] pre.holds(C::kind(), i) && !pre.visible::<C>(i as int) ==> post.stores[C::kind()][i]
            == pre.stores[C::kind()][i]
    &&& forall|i: usize| #[trigger]
        pre.visible::<C>(i as int) ==> post.component::<C>(i).is_some() && f.ensures(
            (pre.records[i as int], &pre.component::<C>(i).unwrap()),
            post.component::<C>(i).unwrap(),
        )
}

/// `f` accepts every entity a full-table scan over `C` visits, with its value.
pub open spec fn accepts_all<C: Component, R, F: Fn(Entity, &C) -> R>(w: WorldView, f: F) -> bool {
    forall|i: usize| #[trigger]
        w.visible::<C>(i as int) ==> f.requires((w.records[i as int], &w.component::<C>(i).unwrap()))
}

/// Scanning visits exactly the visible indices, in increasing order.
pub proof fn lemma_scan_upto<C: Component>(w: WorldView, n: nat)
    requires
        n <= usize::MAX,
    ensures
        forall|j: int| 0 <= j < w.scan_upto::<C>(n).len() ==> #[trigger] w.scan_upto::<C>(n)[j] < n
            && w.visible::<C>(w.scan_upto::<C>(n)[j] as int),
        forall|i: int| 0 <= i < n && w.visible::<C>(i) ==> #[trigger] w.scan_upto::<C>(n).contains(
            i as usize,
        ),
        forall|a: int, b: int|
            0 <= a < b < w.scan_upto::<C>(n).len() ==> #[trigger] w.scan_upto::<C>(n)[a]
                < #[trigger] w.scan_upto::<C>(n)[b],
    decreases n,
{
    if n > 0 {
        lemma_scan_upto::<C>(w, (n - 1) as nat);
        let s = w.scan_upto::<C>((n - 1) as nat);
        let t = w.scan_upto::<C>(n);
        assert forall|i: int| 0 <= i < n && w.visible::<C>(i) implies #[trigger] t.contains(
            i as usize,
        ) by {
            if i < n - 1 {
                assert(s.contains(i as usize));
                let j = choose|j: int| 0 <= j < s.len() && s[j] == i as usize;
                assert(t[j] == i as usize);
            } else {
                assert(t[s.len() as int] == i as usize);
            }
        }
        assert forall|a: int, b: int| 0 <= a < b < t.len() implies #[trigger] t[a] < #[trigger] t[b] by {
            if b == s.len() {
                assert(s[a] < n - 1);
            } else {
                assert(s[a] < s[b]);
            }
        }
    }
}

/// `post` differs from `pre` at most in index `i`: in its entries of the kinds
/// in `ks`, and in its signature.
pub open spec fn changed_only_at(pre: WorldView, post: WorldView, i: usize, ks: Set<ComponentKind>) -> bool {
    &&& post.records.len() == pre.records.len()
    &&& forall|j: int|
        0 <= j < pre.records.len() && j != i ==> #[trigger] post.records[j] == pre.records[j]
    &&& post.synced == pre.synced
    &&& post.bits == pre.bits
    &&& post.resources == pre.resources
    &&& post.stores.dom() == pre.stores.dom()
    &&& forall|k: ComponentKind|
        #[trigger] pre.stores.contains_key(k) && !ks.contains(k) ==> post.stores[k] == pre.stores[k]
    &&& forall|k: ComponentKind|
        #[trigger] pre.stores.contains_key(k) && ks.contains(k) ==> post.stores[k].remove(i)
            == pre.stores[k].remove(i)
}

/// `post` differs from `pre` at most in the storages of the kinds in `ks`
/// and in signatures.
pub open spec fn kept_except(pre: WorldView, post: WorldView, ks: Set<ComponentKind>) -> bool {
    &&& post.records.len() == pre.records.len()
    &&& post.synced == pre.synced
    &&& post.bits == pre.bits
    &&& post.resources == pre.resources
    &&& post.stores.dom() == pre.stores.dom()
    &&& forall|k: ComponentKind|
        #[trigger] pre.stores.contains_key(k) && !ks.contains(k) ==> post.stores[k] == pre.stores[k]
}

/// A change at one index is a change within its kinds, and changes within
/// kinds compose.
pub proof fn lemma_kept_except(
    a: WorldView,
    b: WorldView,
    c: WorldView,
    ks1: Set<ComponentKind>,
    ks2: Set<ComponentKind>,
    ks: Set<ComponentKind>,
)
    requires
        kept_except(a, b, ks1),
        kept_except(b, c, ks2),
        ks1.subset_of(ks),
        ks2.subset_of(ks),
    ensures
        kept_except(a, c, ks),
{
    assert forall|k: ComponentKind| #[trigger] a.stores.contains_key(k) && !ks.contains(k) implies c.stores[k]
        == a.stores[k] by {
        assert(b.stores.contains_key(k));
    }
}

/// An update of one entity's `C` leaves every other kind alone.
pub proof fn lemma_kept_after_update<C: Component>(pre: WorldView, post: WorldView, i: usize)
    requires
        pre.registered(C::kind()),
        i < pre.records.len(),
        pre.value::<C>(i).is_none() ==> post == pre,
        pre.value::<C>(i).is_some() ==> post == pre.replaced(C::kind(), i, post.stores[C::kind()][i]),
    ensures
        kept_except(pre, post, set![C::kind()]),
{
    if pre.value::<C>(i).is_some() {
        lemma_changed_only_step(pre, C::kind(), i, post.stores[C::kind()][i]);
    }
}

/// A change at one index is a change within its kinds.
pub proof fn lemma_kept_from_changed(a: WorldView, b: WorldView, i: usize, ks: Set<ComponentKind>)
    requires
        changed_only_at(a, b, i, ks),
    ensures
        kept_except(a, b, ks),
{
}

/// Changing nothing is a change at any index.
pub proof fn lemma_changed_only_refl(w: WorldView, i: usize, ks: Set<ComponentKind>)
    ensures
        changed_only_at(w, w, i, ks),
{
}

/// An insert or a delete changes only its own index and kind.
pub proof fn lemma_changed_only_step(w: WorldView, k: ComponentKind, i: usize, v: ComponentValue)
    requires
        w.registered(k),
        i < w.records.len(),
    ensures
        changed_only_at(w, w.inserted(k, i, v), i, set![k]),
        changed_only_at(w, w.deleted(k, i), i, set![k]),
        changed_only_at(w, w.replaced(k, i, v), i, set![k]),
{
    assert(w.inserted(k, i, v).stores[k].remove(i) =~= w.stores[k].remove(i));
    assert(w.deleted(k, i).stores[k].remove(i) =~= w.stores[k].remove(i));
    assert(w.replaced(k, i, v).stores[k].remove(i) =~= w.stores[k].remove(i));
    assert(w.inserted(k, i, v).stores.dom() =~= w.stores.dom());
    assert(w.deleted(k, i).stores.dom() =~= w.stores.dom());
    assert(w.replaced(k, i, v).stores.dom() =~= w.stores.dom());
}

/// Changes at one index compose, and a change within some kinds is a change
/// within any larger set of kinds.
pub proof fn lemma_changed_only_trans(
    a: WorldView,
    b: WorldView,
    c: WorldView,
    i: usize,
    ks1: Set<ComponentKind>,
    ks2: Set<ComponentKind>,
    ks: Set<ComponentKind>,
)
    requires
        changed_only_at(a, b, i, ks1),
        changed_only_at(b, c, i, ks2),
        ks1.subset_of(ks),
        ks2.subset_of(ks),
    ensures
        changed_only_at(a, c, i, ks),
{
    assert forall|k: ComponentKind| #[trigger] a.stores.contains_key(k) && ks.contains(k) implies c.stores[k].remove(i)
        == a.stores[k].remove(i) by {
        assert(b.stores.contains_key(k));
        if ks1.contains(k) {
            assert(b.stores[k].remove(i) == a.stores[k].remove(i));
        }
        if ks2.contains(k) {
            assert(c.stores[k].remove(i) == b.stores[k].remove(i));
        }
    }
    assert forall|j: int| 0 <= j < a.records.len() && j != i implies #[trigger] c.records[j] == a.records[j] by {
        assert(b.records[j] == a.records[j]);
    }
}

/// The runtime: the entity registry and one storage per registered kind.
pub struct GameState {
    /// Registry entries that scans visit.
    entities: Vec<Entity>,
    /// Entries created since the last `update_entities`.
    new_entities: Vec<Entity>,
    /// The signature bit of each registered kind, by kind slot.
    hashes: Vec<Option<i128>>,
    /// The bit the next registered kind receives.
    hash_base: i128,
    /// The storage of each registered kind, by kind slot.
    world: Vec<Option<Storage>>,
    /// The singleton value of each kind, by kind slot.
    resources: Vec<Option<ComponentValue>>,
    /// The registered kinds, in the order they were registered.
    order: Ghost<Seq<ComponentKind>>,
}

impl View for GameState {
    type V = WorldView;

    closed spec fn view(&self) -> WorldView {
        WorldView {
            records: self.entities@ + self.new_entities@,
            synced: self.entities@.len(),
            bits: Map::new(
                |k: ComponentKind| self.hashes@[k.index() as int] is Some,
                |k: ComponentKind| self.hashes@[k.index() as int]->0,
            ),
            stores: Map::new(
                |k: ComponentKind| self.world@[k.index() as int] is Some,
                |k: ComponentKind| self.world@[k.index() as int]->0.contents(),
            ),
            resources: Map::new(
                |k: ComponentKind| self.resources@[k.index() as int] is Some,
                |k: ComponentKind| self.resources@[k.index() as int]->0,
            ),
        }
    }
}

impl GameState {
    /// The representation invariant, signatures aside.
    closed spec fn wf_core(&self) -> bool {
        &&& self@.wf()
        &&& self.world@.len() == KIND_COUNT
        &&& self.hashes@.len() == KIND_COUNT
        &&& self.resources@.len() == KIND_COUNT
        &&& forall|j: int|
            0 <= j < KIND_COUNT ==> (#[trigger] self.world@[j] is Some) == (
            self.hashes@[j] is Some)
        &&& count_filled(self.hashes@) <= KIND_COUNT
        &&& self.hash_base == bit_at(count_filled(self.hashes@))
        &&& forall|j: int|
            0 <= j < KIND_COUNT && #[trigger] self.hashes@[j] is Some ==> self.hashes@[j]->0
                < self.hash_base
        &&& is_bit(self.hash_base)
        &&& self.hash_base <= 0x4000
        &&& self.order@.no_duplicates()
        &&& self.order@.len() == count_filled(self.hashes@)
        &&& forall|k: ComponentKind|
            #[trigger] self.order@.contains(k) == (self.hashes@[k.index() as int] is Some)
    }

    /// The representation invariant.
    pub closed spec fn wf(&self) -> bool {
        &&& self.wf_core()
        &&& self@.signatures_exact()
        &&& forall|i: int|
            0 <= i < self@.records.len() ==> 0 <= #[trigger] self@.records[i].signature() < self.hash_base
    }

    /// Kind `k` is registered in `a` exactly when it is in `b`, with the
    /// same bit.
    pub open spec fn same_bit(a: WorldView, b: WorldView, k: ComponentKind) -> bool {
        &&& b.bits.contains_key(k) == a.bits.contains_key(k)
        &&& b.bits.contains_key(k) ==> b.bits[k] == a.bits[k]
    }

    /// A well-formed runtime has a well-formed view.
    pub proof fn lemma_wf(&self)
        requires
            self.wf(),
        ensures
            self@.wf(),
            self@.signatures_exact(),
    {
    }

    proof fn lemma_view_slots(&self)
        requires
            self.world@.len() == KIND_COUNT,
            self.hashes@.len() == KIND_COUNT,
        ensures
            forall|k: ComponentKind|
                #[trigger] self@.stores.contains_key(k) == (self.world@[k.index() as int] is Some),
            forall|k: ComponentKind|
                #[trigger] self@.bits.contains_key(k) == (self.hashes@[k.index() as int] is Some),
    {
    }

    pub fn new() -> (w: GameState)
        ensures
            w.wf(),
            w@.records.len() == 0,
            w@.synced == 0,
            forall|k: ComponentKind| #[trigger] w@.registered(k) == (k == ComponentKind::Deleted),
            w@.stores[ComponentKind::Deleted] == Map::<usize, ComponentValue>::empty(),
            w@.resources == Map::<ComponentKind, ComponentValue>::empty(),
            w@.bits[ComponentKind::Deleted] == 1,
    {
        let mut world: Vec<Option<Storage>> = Vec::new();
        let mut hashes: Vec<Option<i128>> = Vec::new();
        let mut resources: Vec<Option<ComponentValue>> = Vec::new();
        let mut j: usize = 0;
        while j < KIND_COUNT
            invariant
                j <= KIND_COUNT,
                world@.len() == j,
                hashes@.len() == j,
                resources@.len() == j,
                forall|i: int| 0 <= i < j ==> world@[i] is None && hashes@[i] is None && resources@[i] is None,
            decreases KIND_COUNT - j,
        {
            world.push(None);
            hashes.push(None);
            resources.push(None);
            j += 1;
        }
        proof {
            assert forall|n: nat| n <= KIND_COUNT implies count_filled(hashes@.subrange(0, n as int)) == 0 by {
                lemma_count_filled_zero(hashes@, n);
            }
            assert(hashes@.subrange(0, KIND_COUNT as int) =~= hashes@);
            lemma_count_filled_fill(hashes@, 0, 1);
        }
        let deleted = Deleted::kind_of().slot();
        world.set(deleted, Some(Storage::new(Deleted::storage_kind())));
        hashes.set(deleted, Some(1));
        let ghost first = seq![ComponentKind::Deleted];
        let w = GameState {
            entities: Vec::new(),
            new_entities: Vec::new(),
            hashes,
            hash_base: 2,
            world,
            resources,
            order: Ghost(first),
        };
        proof {
            w.lemma_view_slots();
            reveal_with_fuel(bit_at, 2);
            assert(w@.records =~= Seq::<Entity>::empty());
            assert forall|k: ComponentKind| #[trigger] w@.registered(k) == (k == ComponentKind::Deleted) by {
                lemma_kind_index_injective(k, ComponentKind::Deleted);
            }
            assert(w@.bits.dom() =~= w@.stores.dom());
            assert(w@.resources =~= Map::<ComponentKind, ComponentValue>::empty());
            assert(2i128 & 1i128 == 0) by (bit_vector);
            assert(1i128 & 0i128 == 0) by (bit_vector);
            assert(is_bit(2));
            assert(is_bit(1));
            assert forall|kk: ComponentKind| #[trigger] w.order@.contains(kk) == (w.hashes@[kk.index() as int] is Some) by {
                lemma_kind_index_injective(kk, ComponentKind::Deleted);
                if kk == ComponentKind::Deleted {
                    assert(w.order@[0] == kk);
                }
            }
            assert(w@.bits[ComponentKind::Deleted] == 1);
            assert forall|a: ComponentKind, b: ComponentKind|
                #[trigger] w@.bits.contains_key(a) && #[trigger] w@.bits.contains_key(b) && a != b
                    implies w@.bits[a] != w@.bits[b] by {
                lemma_kind_index_injective(a, ComponentKind::Deleted);
                lemma_kind_index_injective(b, ComponentKind::Deleted);
            }
        }
        w
    }

    /// Registers `C`: the first call gives it an empty storage and the next
    /// unused signature bit; later calls change nothing.
    pub fn register_component<C: Component>(&mut self)
        requires
            old(self).wf(),
        ensures
            final(self).wf(),
            final(self)@.records == old(self)@.records,
            final(self)@.synced == old(self)@.synced,
            final(self)@.registered(C::kind()),
            old(self)@.registered(C::kind()) ==> final(self)@ == old(self)@,
            !old(self)@.registered(C::kind()) ==> final(self)@.stores == old(self)@.stores.insert(
                C::kind(),
                Map::empty(),
            ),
            forall|k: ComponentKind|
                k != C::kind() ==> Self::same_bit(old(self)@, final(self)@, k),
            !old(self)@.registered(C::kind()) ==> final(self)@.bits[C::kind()] == bit_at(
                old(self)@.bits.dom().len(),
            ),
            final(self)@.resources == old(self)@.resources,
    {
        let k = C::kind_of();
        let j = k.slot();
        if self.hashes[j].is_none() {
            proof {
                lemma_count_filled_fill(self.hashes@, j as int, self.hash_base);
                lemma_count_filled_bound(self.hashes@.update(j as int, Some(self.hash_base)));
                lemma_bit_at_bound(count_filled(self.hashes@));
                lemma_bit_at_positive(count_filled(self.hashes@));
            }
            let ghost pre = *self;
            let bit = self.hash_base;
            self.world.set(j, Some(Storage::new(C::storage_kind())));
            self.hashes.set(j, Some(bit));
            self.hash_base = bit * 2;
            let ghost grown = pre.order@.push(k);
            self.order = Ghost(grown);
            proof {
                pre.lemma_view_slots();
                assert(pre@.bits.dom() =~= pre.order@.to_set()) by {
                    assert forall|kk: ComponentKind| pre@.bits.contains_key(kk) == pre.order@.to_set().contains(kk) by {
                        assert(pre.order@.contains(kk) == (pre.hashes@[kk.index() as int] is Some));
                    }
                }
                pre.order@.unique_seq_to_set();
                assert(!pre.order@.contains(k));
                assert forall|kk: ComponentKind| #[trigger] self.order@.contains(kk) == (self.hashes@[kk.index() as int] is Some) by {
                    lemma_kind_index_injective(kk, k);
                    vstd::seq_lib::lemma_seq_contains_after_push(pre.order@, k, kk);
                }
                assert forall|a: int, b: int| 0 <= a < self.order@.len() && 0 <= b < self.order@.len() && a != b
                    implies self.order@[a] != self.order@[b] by {
                    if a == pre.order@.len() as int {
                        assert(pre.order@.contains(self.order@[b]));
                    } else if b == pre.order@.len() as int {
                        assert(pre.order@.contains(self.order@[a]));
                    }
                }
                assert(self@.resources =~= pre@.resources);
            }
            proof {
                self.lemma_view_slots();
                pre.lemma_view_slots();
                assert forall|a: ComponentKind, b: ComponentKind|
                    #[trigger] self@.bits.contains_key(a) && #[trigger] self@.bits.contains_key(b)
                        && a != b implies self@.bits[a] != self@.bits[b] by {
                    lemma_kind_index_injective(a, b);
                    lemma_kind_index_injective(a, k);
                    lemma_kind_index_injective(b, k);
                    if a == k {
                        assert(pre.hashes@[b.index() as int] is Some);
                    } else if b == k {
                        assert(pre.hashes@[a.index() as int] is Some);
                    } else {
                        assert(pre@.bits.contains_key(a) && pre@.bits.contains_key(b));
                    }
                }
                assert forall|kk: ComponentKind, i: usize| #[trigger]
                    self@.holds(kk, i) implies i < self@.records.len() && self@.stores[kk][i].kind()
                        == kk by {
                    lemma_kind_index_injective(kk, k);
                    assert(pre@.holds(kk, i));
                }
                assert(self@.stores =~= pre@.stores.insert(k, Map::empty()));
                assert forall|kk: ComponentKind| kk != k implies Self::same_bit(pre@, self@, kk) by {
                    lemma_kind_index_injective(kk, k);
                }
                assert(self@.bits.dom() =~= self@.stores.dom());
                lemma_bit_double(bit);
                lemma_bit_at_bound(count_filled(self.hashes@));
                assert forall|kk: ComponentKind| #[trigger] self@.bits.contains_key(kk) implies is_bit(self@.bits[kk]) by {
                    if kk != k {
                        assert(pre@.bits.contains_key(kk));
                    }
                }
                assert forall|jj: int|
                    0 <= jj < KIND_COUNT && #[trigger] self.hashes@[jj] is Some implies self.hashes@[jj]->0 < self.hash_base by {
                    if jj != j {
                        assert(pre.hashes@[jj] is Some);
                    }
                }
                assert forall|i: usize, kk: ComponentKind|
                    (i as int) < self@.records.len() && self@.bits.contains_key(kk) implies ((self@.signature(i)
                        & self@.bits[kk]) != 0) == self@.holds(kk, i) by {
                    if kk == k {
                        assert(0 <= pre@.records[i as int].signature() < bit);
                        assert(!self@.holds(kk, i));
                    } else {
                        assert(pre@.bits.contains_key(kk));
                        assert(self@.holds(kk, i) == pre@.holds(kk, i));
                    }
                }
                assert forall|i: int| 0 <= i < self@.records.len() implies 0 <= #[trigger] self@.records[i].signature()
                    < self.hash_base by {
                    assert(0 <= pre@.records[i].signature() < bit);
                }
            }
        } else {
            proof {
                self.lemma_view_slots();
            }
        }
    }

    /// Holds `resource` as the singleton of its type, replacing any earlier one.
    pub fn set_resource<R: Resource>(&mut self, resource: R)
        requires
            old(self).wf(),
        ensures
            final(self).wf(),
            final(self)@ == (WorldView {
                resources: old(self)@.resources.insert(R::kind(), resource.into_value()),
                ..old(self)@
            }),
    {
        let ghost pre = *self;
        let k = R::kind_of();
        let v = resource.wrap();
        proof {
            R::lemma_into_value(resource);
        }
        self.resources.set(k.slot(), Some(v));
        proof {
            self.lemma_view_slots();
            pre.lemma_view_slots();
            assert(self@.records =~= pre@.records);
            assert(self@.stores =~= pre@.stores);
            assert(self@.bits =~= pre@.bits);
            assert forall|kk: ComponentKind| #[trigger] self@.resources.contains_key(kk) implies self@.resources[kk]
                == pre@.resources.insert(k, v)[kk] by {
                lemma_kind_index_injective(kk, k);
            }
            assert(self@.resources =~= pre@.resources.insert(k, v));
            assert forall|kk: ComponentKind, ii: usize| #[trigger]
                self@.holds(kk, ii) implies ii < self@.records.len() && self@.stores[kk][ii].kind() == kk by {
                assert(pre@.holds(kk, ii));
            }
            assert forall|a: ComponentKind, b: ComponentKind|
                #[trigger] self@.bits.contains_key(a) && #[trigger] self@.bits.contains_key(b) && a != b
                    implies self@.bits[a] != self@.bits[b] by {
                assert(pre@.bits.contains_key(a) && pre@.bits.contains_key(b));
            }
            assert forall|kk: ComponentKind| #[trigger] self@.bits.contains_key(kk) implies is_bit(self@.bits[kk]) by {
                assert(pre@.bits.contains_key(kk));
            }
            assert forall|kk: ComponentKind| #[trigger] self@.resources.contains_key(kk) implies self@.resources[kk].kind() == kk by {
                if kk != k {
                    assert(pre@.resources.contains_key(kk));
                }
            }
            assert(pre@.wf());
            assert(self@.registered(ComponentKind::Deleted));
            assert(self@.bits.dom() == self@.stores.dom());
            assert forall|j: int| 0 <= j < self@.records.len() implies #[trigger] self@.records[j].index() == j
                && self@.records[j].generation() == 0 by {
                assert(self@.records[j] == pre@.records[j]);
            }
            assert(self@.wf());
            GameState::lemma_same_shape(pre, *self);
        }
    }

    /// A copy of the singleton of type `R`, if one is held.
    pub fn get_resource<R: Resource>(&self) -> (r: Option<R>)
        requires
            self.wf(),
        ensures
            r.is_some() == self@.resources.contains_key(R::kind()),
            r.is_some() ==> r.unwrap()@ == R::project(self@.resources[R::kind()]).unwrap()@,
    {
        proof {
            self.lemma_view_slots();
        }
        match &self.resources[R::kind_of().slot()] {
            Some(v) => match R::peek(v) {
                Some(c) => Some(c.duplicate()),
                None => {
                    proof {
                        R::lemma_project_kind(*v);
                    }
                    None
                },
            },
            None => None,
        }
    }

    /// The storage of a registered kind.
    fn get_storage(&self, k: ComponentKind) -> (r: &Storage)
        requires
            self.wf_core(),
            self@.registered(k),
        ensures
            r.contents() == self@.stores[k],
    {
        proof {
            self.lemma_view_slots();
        }
        self.world[k.slot()].as_ref().unwrap()
    }

    /// The storage of a registered kind, for writing.
    fn get_storage_mut(&mut self, k: ComponentKind) -> (r: &mut Storage)
        requires
            old(self).wf_core(),
            old(self)@.registered(k),
        ensures
            r.contents() == old(self)@.stores[k],
            final(self).world@ == old(self).world@.update(k.index() as int, Some(*final(r))),
            final(self).entities == old(self).entities,
            final(self).new_entities == old(self).new_entities,
            final(self).hashes == old(self).hashes,
            final(self).hash_base == old(self).hash_base,
            final(self).resources == old(self).resources,
            final(self).order == old(self).order,
    {
        proof {
            self.lemma_view_slots();
        }
        let j = k.slot();
        self.world[j].as_mut().unwrap()
    }

    proof fn lemma_store_replaced(pre: GameState, post: GameState, k: ComponentKind, s: Storage)
        requires
            pre.wf_core(),
            pre@.registered(k),
            post.world@ == pre.world@.update(k.index() as int, Some(s)),
            post.entities == pre.entities,
            post.new_entities == pre.new_entities,
            post.hashes == pre.hashes,
            post.hash_base == pre.hash_base,
            post.resources == pre.resources,
            post.order == pre.order,
            forall|i: usize| #[trigger]
                s.contents().contains_key(i) ==> i < pre@.records.len() && s.contents()[i].kind()
                    == k,
        ensures
            post@ == (WorldView { stores: pre@.stores.insert(k, s.contents()), ..pre@ }),
            post.wf_core(),
            pre.wf() && s.contents().dom() == pre@.stores[k].dom() ==> post.wf(),
    {
        pre.lemma_view_slots();
        post.lemma_view_slots();
        assert forall|kk: ComponentKind| #[trigger] post@.stores.contains_key(kk) implies post@.stores[kk]
            == pre@.stores.insert(k, s.contents())[kk] by {
            lemma_kind_index_injective(kk, k);
        }
        assert(post@.stores =~= pre@.stores.insert(k, s.contents()));
        assert(post@.bits =~= pre@.bits);
        assert(post@.resources =~= pre@.resources);
        assert forall|kk: ComponentKind, i: usize| #[trigger]
            post@.holds(kk, i) implies i < post@.records.len() && post@.stores[kk][i].kind() == kk by {
            if kk != k {
                assert(pre@.holds(kk, i));
            }
        }
        assert forall|j: int|
            0 <= j < KIND_COUNT implies (#[trigger] post.world@[j] is Some) == (post.hashes@[j] is Some) by {
            assert(pre.world@[j] is Some == pre.hashes@[j] is Some);
        }
        assert forall|a: ComponentKind, b: ComponentKind|
            #[trigger] post@.bits.contains_key(a) && #[trigger] post@.bits.contains_key(b) && a != b
                implies post@.bits[a] != post@.bits[b] by {
            assert(pre@.bits.contains_key(a) && pre@.bits.contains_key(b));
        }
        assert forall|kk: ComponentKind| #[trigger] post@.bits.contains_key(kk) implies is_bit(post@.bits[kk]) by {
            assert(pre@.bits.contains_key(kk));
        }
        assert(post@.records == pre@.records);
        assert(post@.registered(ComponentKind::Deleted));
        assert(post@.bits.dom() == post@.stores.dom());
        assert(post@.wf());
        if pre.wf() && s.contents().dom() == pre@.stores[k].dom() {
            assert forall|i: usize, kk: ComponentKind|
                (i as int) < post@.records.len() && post@.bits.contains_key(kk) implies ((post@.signature(i)
                    & post@.bits[kk]) != 0) == post@.holds(kk, i) by {
                assert(post@.holds(kk, i) == pre@.holds(kk, i));
                assert(pre@.bits.contains_key(kk));
            }
        }
    }

    /// A change that keeps the registry, the bits and which entries each
    /// storage holds keeps the invariant.
    proof fn lemma_same_shape(pre: GameState, post: GameState)
        requires
            pre.wf(),
            post.wf_core(),
            post@.records == pre@.records,
            post@.bits == pre@.bits,
            post.hash_base == pre.hash_base,
            post@.stores.dom() == pre@.stores.dom(),
            forall|k: ComponentKind| #[trigger]
                pre@.stores.contains_key(k) ==> post@.stores[k].dom() == pre@.stores[k].dom(),
        ensures
            post.wf(),
    {
        assert forall|i: usize, kk: ComponentKind|
            (i as int) < post@.records.len() && post@.bits.contains_key(kk) implies ((post@.signature(i)
                & post@.bits[kk]) != 0) == post@.holds(kk, i) by {
            assert(pre@.bits.contains_key(kk));
            assert(post@.holds(kk, i) == pre@.holds(kk, i));
        }
    }

    /// The registry entry of an entity, synchronised or not.
    fn intern(&self, entity: Entity) -> (r: Entity)
        requires
            self.wf_core(),
            entity.index() < self@.records.len(),
        ensures
            r == self@.records[entity.index() as int],
    {
        if entity.index < self.entities.len() {
            self.entities[entity.index]
        } else {
            self.new_entities[entity.index - self.entities.len()]
        }
    }

    /// Replaces the registry entry of index `i`.
    fn set_record(&mut self, i: usize, e: Entity)
        requires
            old(self).wf_core(),
            i < old(self)@.records.len(),
            e.index() == i,
            e.generation() == 0,
        ensures
            final(self)@ == (WorldView { records: old(self)@.records.update(i as int, e), ..old(self)@ }),
            final(self).wf_core(),
            final(self).hash_base == old(self).hash_base,
    {
        let ghost pre = *self;
        if i < self.entities.len() {
            self.entities.set(i, e);
        } else {
            let j = i - self.entities.len();
            self.new_entities.set(j, e);
        }
        proof {
            self.lemma_view_slots();
            pre.lemma_view_slots();
            assert(self@.records =~= pre@.records.update(i as int, e));
            assert(self@.stores =~= pre@.stores);
            assert(self@.bits =~= pre@.bits);
            assert(self@.resources =~= pre@.resources);
            assert forall|kk: ComponentKind, ii: usize| #[trigger]
                self@.holds(kk, ii) implies ii < self@.records.len() && self@.stores[kk][ii].kind() == kk by {
                assert(pre@.holds(kk, ii));
            }
            assert forall|j: int| 0 <= j < self@.records.len() implies #[trigger] self@.records[j].index() == j
                && self@.records[j].generation() == 0 by {
                if j != i {
                    assert(self@.records[j] == pre@.records[j]);
                }
            }
            assert forall|a: ComponentKind, b: ComponentKind|
                #[trigger] self@.bits.contains_key(a) && #[trigger] self@.bits.contains_key(b) && a != b
                    implies self@.bits[a] != self@.bits[b] by {
                assert(pre@.bits.contains_key(a) && pre@.bits.contains_key(b));
            }
            assert forall|kk: ComponentKind| #[trigger] self@.bits.contains_key(kk) implies is_bit(self@.bits[kk]) by {
                assert(pre@.bits.contains_key(kk));
            }
            assert(self@.registered(ComponentKind::Deleted));
            assert(self@.bits.dom() == self@.stores.dom());
            assert(self@.wf());
        }
    }

    /// Creates an entity with the next index and an empty signature. Full-table
    /// scans see it once `update_entities` has run.
    pub fn create_entity(&mut self) -> (e: Entity)
        requires
            old(self).wf(),
            old(self)@.records.len() + 1 < usize::MAX,
        ensures
            final(self).wf(),
            e.index() == old(self)@.records.len(),
            e.generation() == 0,
            e.signature() == 0,
            final(self)@ == (WorldView { records: old(self)@.records.push(e), ..old(self)@ }),
    {
        let ghost pre = *self;
        let e = Entity { index: self.entities.len() + self.new_entities.len(), generation: 0, hash: 0 };
        self.new_entities.push(e);
        proof {
            self.lemma_view_slots();
            pre.lemma_view_slots();
            assert(self@.records =~= pre@.records.push(e));
            assert(self@.stores =~= pre@.stores);
            assert(self@.bits =~= pre@.bits);
            assert(self@.resources =~= pre@.resources);
            assert forall|kk: ComponentKind, ii: usize| #[trigger]
                self@.holds(kk, ii) implies ii < self@.records.len() && self@.stores[kk][ii].kind() == kk by {
                assert(pre@.holds(kk, ii));
            }
            assert forall|i: int| 0 <= i < self@.records.len() implies #[trigger] self@.records[i].index() == i
                && self@.records[i].generation() == 0 by {
                if i < pre@.records.len() {
                    assert(self@.records[i] == pre@.records[i]);
                }
            }
            assert forall|i: usize, kk: ComponentKind|
                (i as int) < self@.records.len() && self@.bits.contains_key(kk) implies ((self@.signature(i)
                    & self@.bits[kk]) != 0) == self@.holds(kk, i) by {
                assert(pre@.bits.contains_key(kk));
                if (i as int) < pre@.records.len() {
                    assert(self@.records[i as int] == pre@.records[i as int]);
                    assert(self@.holds(kk, i) == pre@.holds(kk, i));
                } else {
                    assert(self@.signature(i) == 0);
                    assert(!pre@.holds(kk, i));
                    lemma_bit_facts(0, self@.bits[kk], self@.bits[kk], self.hash_base);
                }
            }
            assert forall|i: int| 0 <= i < self@.records.len() implies 0 <= #[trigger] self@.records[i].signature()
                < self.hash_base by {
                if i < pre@.records.len() {
                    assert(self@.records[i] == pre@.records[i]);
                }
            }
        }
        e
    }

    /// Makes every created entity visible to full-table scans.
    pub fn update_entities(&mut self)
        requires
            old(self).wf(),
        ensures
            final(self).wf(),
            final(self)@ == (WorldView { synced: old(self)@.records.len(), ..old(self)@ }),
    {
        let ghost pre = *self;
        let mut i: usize = 0;
        while i < self.new_entities.len()
            invariant
                i <= self.new_entities.len(),
                self.new_entities == pre.new_entities,
                self.entities@ == pre.entities@ + pre.new_entities@.subrange(0, i as int),
                self.world == pre.world,
                self.hashes == pre.hashes,
                self.hash_base == pre.hash_base,
                self.resources == pre.resources,
                self.order == pre.order,
            decreases self.new_entities.len() - i,
        {
            let e = self.new_entities[i];
            self.entities.push(e);
            i += 1;
        }
        self.new_entities = Vec::new();
        proof {
            self.lemma_view_slots();
            pre.lemma_view_slots();
            assert(pre.new_entities@.subrange(0, i as int) =~= pre.new_entities@);
            assert(self@.records =~= pre@.records);
            assert(self@.stores =~= pre@.stores);
            assert(self@.bits =~= pre@.bits);
            assert(self@.resources =~= pre@.resources);
            assert forall|kk: ComponentKind, ii: usize| #[trigger]
                self@.holds(kk, ii) implies ii < self@.records.len() && self@.stores[kk][ii].kind() == kk by {
                assert(pre@.holds(kk, ii));
            }
            GameState::lemma_same_shape(pre, *self);
        }
    }

    /// Soft-deletes an entity: it gets the `Deleted` marker.
    pub fn delete_entity(&mut self, entity: Entity)
        requires
            old(self).wf(),
            entity.index() < old(self)@.records.len(),
        ensures
            final(self).wf(),
            final(self)@ == old(self)@.inserted(ComponentKind::Deleted, entity.index(), Deleted.into_value()),
            !final(self)@.alive(entity.index()),
    {
        self.insert(entity, Deleted);
    }

    pub fn is_alive(&self, entity: Entity) -> (r: bool)
        requires
            self.wf(),
        ensures
            r == self@.alive(entity.index()),
    {
        self.get_storage(Deleted::kind_of()).get(entity.index).is_none()
    }

    pub fn is_deleted(&self, entity: Entity) -> (r: bool)
        requires
            self.wf(),
        ensures
            r == !self@.alive(entity.index()),
    {
        self.get_storage(Deleted::kind_of()).get(entity.index).is_some()
    }

    /// The entity's signature, as the registry records it.
    pub fn type_of(&self, entity: Entity) -> (r: i128)
        requires
            self.wf(),
            entity.index() < self@.records.len(),
        ensures
            r == self@.signature(entity.index()),
    {
        self.intern(entity).hash
    }

    /// Stores `c` as the entity's `C`, replacing any earlier one, and sets
    /// `C`'s bit in the entity's signature.
    pub fn insert<C: Component>(&mut self, entity: Entity, c: C)
        requires
            old(self).wf(),
            old(self)@.registered(C::kind()),
            entity.index() < old(self)@.records.len(),
        ensures
            final(self).wf(),
            final(self)@ == old(self)@.inserted(C::kind(), entity.index(), c.into_value()),
            final(self)@.component::<C>(entity.index()) == Some(c),
    {
        let k = C::kind_of();
        let i = entity.index;
        let ghost pre = *self;
        proof {
            self.lemma_view_slots();
        }
        let bit = self.hashes[k.slot()].unwrap();
        let v = c.wrap();
        proof {
            C::lemma_into_value(c);
        }
        let s = self.get_storage_mut(k);
        s.insert(i, v);
        let ghost mid = *self;
        proof {
            let st = mid.world@[k.index() as int]->0;
            assert forall|ii: usize| #[trigger]
                st.contents().contains_key(ii) implies ii < pre@.records.len() && st.contents()[ii].kind() == k by {
                if ii != i {
                    assert(pre@.holds(k, ii));
                }
            }
            GameState::lemma_store_replaced(pre, mid, k, st);
        }
        let rec = self.intern(entity);
        proof {
            assert(rec.index() == i && rec.generation() == 0) by {
                assert(mid@.records[i as int].index() == i);
            }
        }
        self.set_record(i, Entity { hash: rec.hash | bit, ..rec });
        proof {
            assert(self@ =~= pre@.inserted(k, i, v));
            assert forall|j: usize, kk: ComponentKind|
                (j as int) < self@.records.len() && self@.bits.contains_key(kk) implies ((self@.signature(j)
                    & self@.bits[kk]) != 0) == self@.holds(kk, j) by {
                assert(pre@.bits.contains_key(kk));
                if j == i {
                    assert(0 <= pre@.records[i as int].signature() < pre.hash_base);
                    lemma_bit_facts(pre@.signature(i), bit, pre@.bits[kk], self.hash_base);
                    lemma_kind_index_injective(kk, k);
                    if kk != k {
                        assert(self@.holds(kk, j) == pre@.holds(kk, j));
                    }
                } else {
                    assert(self@.records[j as int] == pre@.records[j as int]);
                    assert(self@.holds(kk, j) == pre@.holds(kk, j));
                }
            }
            assert forall|j: int| 0 <= j < self@.records.len() implies 0 <= #[trigger] self@.records[j].signature()
                < self.hash_base by {
                if j == i {
                    assert(0 <= pre@.records[i as int].signature() < pre.hash_base);
                    lemma_bit_facts(pre@.signature(i), bit, bit, self.hash_base);
                } else {
                    assert(self@.records[j] == pre@.records[j]);
                }
            }
        }
    }

    /// Removes the entity's `C`, if any, and clears `C`'s bit in its
    /// signature. A second call changes nothing more.
    pub fn delete<C: Component>(&mut self, entity: Entity)
        requires
            old(self).wf(),
            old(self)@.registered(C::kind()),
            entity.index() < old(self)@.records.len(),
        ensures
            final(self).wf(),
            final(self)@ == old(self)@.deleted(C::kind(), entity.index()),
    {
        let k = C::kind_of();
        let i = entity.index;
        let ghost pre = *self;
        proof {
            self.lemma_view_slots();
        }
        let bit = self.hashes[k.slot()].unwrap();
        let s = self.get_storage_mut(k);
        s.delete(i);
        let ghost mid = *self;
        proof {
            let st = mid.world@[k.index() as int]->0;
            assert forall|ii: usize| #[trigger]
                st.contents().contains_key(ii) implies ii < pre@.records.len() && st.contents()[ii].kind() == k by {
                if ii != i {
                    assert(pre@.holds(k, ii));
                }
            }
            GameState::lemma_store_replaced(pre, mid, k, st);
        }
        let rec = self.intern(entity);
        proof {
            assert(rec.index() == i && rec.generation() == 0) by {
                assert(mid@.records[i as int].index() == i);
            }
        }
        self.set_record(i, Entity { hash: rec.hash & !bit, ..rec });
        proof {
            assert(self@ =~= pre@.deleted(k, i));
            assert forall|j: usize, kk: ComponentKind|
                (j as int) < self@.records.len() && self@.bits.contains_key(kk) implies ((self@.signature(j)
                    & self@.bits[kk]) != 0) == self@.holds(kk, j) by {
                assert(pre@.bits.contains_key(kk));
                if j == i {
                    assert(0 <= pre@.records[i as int].signature() < pre.hash_base);
                    lemma_bit_facts(pre@.signature(i), bit, pre@.bits[kk], self.hash_base);
                    lemma_kind_index_injective(kk, k);
                    if kk != k {
                        assert(self@.holds(kk, j) == pre@.holds(kk, j));
                    }
                } else {
                    assert(self@.records[j as int] == pre@.records[j as int]);
                    assert(self@.holds(kk, j) == pre@.holds(kk, j));
                }
            }
            assert forall|j: int| 0 <= j < self@.records.len() implies 0 <= #[trigger] self@.records[j].signature()
                < self.hash_base by {
                if j == i {
                    assert(0 <= pre@.records[i as int].signature() < pre.hash_base);
                    lemma_bit_facts(pre@.signature(i), bit, bit, self.hash_base);
                } else {
                    assert(self@.records[j] == pre@.records[j]);
                }
            }
        }
    }
    /// Replaces the stored entry of kind `k` for index `i`, leaving the
    /// signature alone.
    fn replace_value(&mut self, k: ComponentKind, i: usize, v: ComponentValue)
        requires
            old(self).wf(),
            old(self)@.holds(k, i),
            v.kind() == k,
        ensures
            final(self).wf(),
            final(self)@ == old(self)@.replaced(k, i, v),
    {
        let ghost pre = *self;
        let s = self.get_storage_mut(k);
        s.insert(i, v);
        let ghost mid = *self;
        proof {
            let st = mid.world@[k.index() as int]->0;
            assert forall|ii: usize| #[trigger]
                st.contents().contains_key(ii) implies ii < pre@.records.len() && st.contents()[ii].kind()
                    == k by {
                assert(pre@.holds(k, ii));
            }
            assert(st.contents().dom() =~= pre@.stores[k].dom());
            GameState::lemma_store_replaced(pre, mid, k, st);
            assert(mid@ =~= pre@.replaced(k, i, v));
        }
    }

    /// A copy of the `C` of a living entity; `None` when the entity is dead or
    /// holds none.
    pub fn clone<C: Component>(&self, entity: Entity) -> (r: Option<C>)
        requires
            self.wf(),
            self@.registered(C::kind()),
        ensures
            r.is_some() == self@.value::<C>(entity.index()).is_some(),
            r.is_some() ==> r.unwrap()@ == self@.value::<C>(entity.index()).unwrap()@,
    {
        if self.is_alive(entity) {
            match self.get_storage(C::kind_of()).get(entity.index) {
                Some(v) => match C::peek(v) {
                    Some(c) => Some(c.duplicate()),
                    None => None,
                },
                None => None,
            }
        } else {
            None
        }
    }

    /// A copy of the entity's `C`, which the caller knows is stored; the
    /// entity's liveness is not consulted.
    pub fn get_value<C: Component>(&self, entity: Entity) -> (r: C)
        requires
            self.wf(),
            self@.registered(C::kind()),
            self@.component::<C>(entity.index()).is_some(),
        ensures
            r@ == self@.component::<C>(entity.index()).unwrap()@,
    {
        let v = self.get_storage(C::kind_of()).get(entity.index).unwrap();
        C::peek(v).unwrap().duplicate()
    }

    /// Whether a living entity holds a `C`.
    pub fn has_flag<C: Component>(&self, entity: Entity) -> (r: bool)
        requires
            self.wf(),
            self@.registered(C::kind()),
        ensures
            r == self@.has::<C>(entity.index()),
    {
        if self.is_alive(entity) {
            self.get_storage(C::kind_of()).get(entity.index).is_some()
        } else {
            false
        }
    }

    /// Applies `f` to the `C` of a living entity; `None` when it has none.
    pub fn read<C: Component, R, F: Fn(&C) -> R>(&self, entity: Entity, f: F) -> (r: Option<R>)
        requires
            self.wf(),
            self@.registered(C::kind()),
            self@.value::<C>(entity.index()).is_some() ==> f.requires(
                (&self@.value::<C>(entity.index()).unwrap(),),
            ),
        ensures
            r.is_some() == self@.value::<C>(entity.index()).is_some(),
            r.is_some() ==> f.ensures((&self@.value::<C>(entity.index()).unwrap(),), r.unwrap()),
    {
        if self.is_alive(entity) {
            match self.get_storage(C::kind_of()).get(entity.index) {
                Some(v) => match C::peek(v) {
                    Some(c) => Some(f(c)),
                    None => None,
                },
                None => None,
            }
        } else {
            None
        }
    }

    /// Replaces the `C` of a living entity by what `f` makes of it, in place;
    /// changes nothing when the entity is dead or holds none.
    pub fn update<C: Component, F: Fn(&C) -> C>(&mut self, entity: Entity, f: F)
        requires
            old(self).wf(),
            old(self)@.registered(C::kind()),
            old(self)@.value::<C>(entity.index()).is_some() ==> f.requires(
                (&old(self)@.value::<C>(entity.index()).unwrap(),),
            ),
        ensures
            final(self).wf(),
            old(self)@.value::<C>(entity.index()).is_none() ==> final(self)@ == old(self)@,
            old(self)@.value::<C>(entity.index()).is_some() ==> final(self)@.component::<C>(
                entity.index(),
            ).is_some(),
            old(self)@.value::<C>(entity.index()).is_some() ==> final(self)@ == old(self)@.replaced(
                C::kind(),
                entity.index(),
                final(self)@.stores[C::kind()][entity.index()],
            ),
            old(self)@.value::<C>(entity.index()).is_some() ==> f.ensures(
                (&old(self)@.value::<C>(entity.index()).unwrap(),),
                final(self)@.component::<C>(entity.index()).unwrap(),
            ),
    {
        if self.is_alive(entity) {
            let k = C::kind_of();
            let i = entity.index;
            let ghost pre = *self;
            let s = self.get_storage_mut(k);
            match s.get_mut(i) {
                Some(slot) => {
                    let next = match C::peek(slot) {
                        Some(c) => Some(f(c)),
                        None => None,
                    };
                    match next {
                        Some(nc) => {
                            let v = nc.wrap();
                            proof {
                                C::lemma_into_value(nc);
                            }
                            *slot = v;
                        },
                        None => {},
                    }
                },
                None => {},
            }
            let ghost mid = *self;
            proof {
                let st = mid.world@[k.index() as int]->0;
                assert forall|ii: usize| #[trigger]
                    st.contents().contains_key(ii) implies ii < pre@.records.len()
                        && st.contents()[ii].kind() == k by {
                    if ii != i {
                        assert(pre@.holds(k, ii));
                    } else {
                        assert(pre@.holds(k, ii));
                    }
                }
                assert(st.contents().dom() =~= pre@.stores[k].dom());
                GameState::lemma_store_replaced(pre, mid, k, st);
                if pre@.value::<C>(i).is_some() {
                    assert(mid@ =~= pre@.replaced(k, i, mid@.stores[k][i]));
                } else {
                    if pre@.holds(k, i) {
                        C::lemma_project_kind(pre@.stores[k][i]);
                    }
                    assert(mid@.stores =~= pre@.stores);
                }
            }
        }
    }
    /// Replaces, in index order, the `C` of every synchronised living entity
    /// that holds one by what `f` makes of the entity and its value.
    pub fn update_all<C: Component, F: Fn(Entity, &C) -> C>(&mut self, f: F)
        requires
            old(self).wf(),
            old(self)@.registered(C::kind()),
            accepts_all::<C, C, F>(old(self)@, f),
        ensures
            final(self).wf(),
            all_updated::<C, F>(old(self)@, final(self)@, f),
    {
        let k = C::kind_of();
        let ghost pre = self@;
        let n = self.entities.len();
        let mut i: usize = 0;
        while i < n
            invariant
                self.wf(),
                pre.wf(),
                pre.registered(k),
                k == C::kind(),
                n == pre.synced,
                i <= n,
                accepts_all::<C, C, F>(pre, f),
                self@.records == pre.records,
                self@.synced == pre.synced,
                self@.bits == pre.bits,
                self@.stores.dom() == pre.stores.dom(),
                forall|kk: ComponentKind|
                    kk != k && #[trigger] pre.stores.contains_key(kk) ==> self@.stores[kk]
                        == pre.stores[kk],
                self@.stores[k].dom() == pre.stores[k].dom(),
                forall|j: usize|
                    #[trigger] pre.holds(k, j) && (j >= i || !pre.visible::<C>(j as int))
                        ==> self@.stores[k][j] == pre.stores[k][j],
                forall|j: usize|
                    #[trigger] pre.visible::<C>(j as int) && j < i ==> self@.component::<C>(
                        j,
                    ).is_some() && f.ensures(
                        (pre.records[j as int], &pre.component::<C>(j).unwrap()),
                        self@.component::<C>(j).unwrap(),
                    ),
            decreases n - i,
        {
            let e = self.entities[i];
            proof {
                assert(self@.records[i as int] == e);
                assert(e.index() == i);
                assert(self@.alive(i) == pre.alive(i)) by {
                    assert(self@.stores[ComponentKind::Deleted].dom() == pre.stores[ComponentKind::Deleted].dom());
                }
            }
            if self.is_alive(e) {
                let ghost before = *self;
                let s = self.get_storage_mut(k);
                match s.get_mut(i) {
                    Some(slot) => {
                        let next = match C::peek(slot) {
                            Some(c) => {
                                proof {
                                    assert(pre.holds(k, i));
                                    assert(pre.visible::<C>(i as int));
                                }
                                Some(f(e, c))
                            },
                            None => None,
                        };
                        match next {
                            Some(nc) => {
                                let v = nc.wrap();
                                proof {
                                    C::lemma_into_value(nc);
                                }
                                *slot = v;
                            },
                            None => {},
                        }
                    },
                    None => {},
                }
                let ghost mid = *self;
                proof {
                    let st = mid.world@[k.index() as int]->0;
                    assert forall|ii: usize| #[trigger]
                        st.contents().contains_key(ii) implies ii < before@.records.len()
                            && st.contents()[ii].kind() == k by {
                        assert(before@.holds(k, ii));
                    }
                    assert(st.contents().dom() =~= before@.stores[k].dom());
                    GameState::lemma_store_replaced(before, mid, k, st);
                    if before@.holds(k, i) {
                        C::lemma_project_kind(before@.stores[k][i]);
                    }
                    assert(mid@.stores.dom() =~= pre.stores.dom());
                    assert(mid@.stores[k].dom() =~= pre.stores[k].dom());
                }
            }
            i += 1;
        }
        proof {
            assert forall|j: usize| #[trigger] pre.visible::<C>(j as int) implies self@.component::<C>(
                j,
            ).is_some() && f.ensures(
                (pre.records[j as int], &pre.component::<C>(j).unwrap()),
                self@.component::<C>(j).unwrap(),
            ) by {
                assert(j < n);
            }
        }
    }

    /// What `f` makes of each synchronised living entity that holds a `C`,
    /// with its value, in index order.
    pub fn read_all<C: Component, R, F: Fn(Entity, &C) -> R>(&self, f: F) -> (r: Vec<R>)
        requires
            self.wf(),
            self@.registered(C::kind()),
            accepts_all::<C, R, F>(self@, f),
        ensures
            r@.len() == self@.scan::<C>().len(),
            forall|j: int|
                0 <= j < r@.len() ==> f.ensures(
                    (
                        self@.records[self@.scan::<C>()[j] as int],
                        &self@.component::<C>(self@.scan::<C>()[j]).unwrap(),
                    ),
                    #[trigger] r@[j],
                ),
    {
        let k = C::kind_of();
        let deleted = self.get_storage(Deleted::kind_of());
        let storage = self.get_storage(k);
        let n = self.entities.len();
        let mut r: Vec<R> = Vec::new();
        let mut i: usize = 0;
        while i < n
            invariant
                self.wf(),
                k == C::kind(),
                self@.registered(k),
                deleted.contents() == self@.stores[ComponentKind::Deleted],
                storage.contents() == self@.stores[k],
                n == self@.synced,
                i <= n,
                accepts_all::<C, R, F>(self@, f),
                r@.len() == self@.scan_upto::<C>(i as nat).len(),
                forall|j: int|
                    0 <= j < r@.len() ==> f.ensures(
                        (
                            self@.records[self@.scan_upto::<C>(i as nat)[j] as int],
                            &self@.component::<C>(self@.scan_upto::<C>(i as nat)[j]).unwrap(),
                        ),
                        #[trigger] r@[j],
                    ),
            decreases n - i,
        {
            let e = self.entities[i];
            proof {
                assert(self@.records[i as int] == e);
                assert(e.index() == i);
            }
            if deleted.get(i).is_none() {
                match storage.get(i) {
                    Some(v) => match C::peek(v) {
                        Some(c) => {
                            proof {
                                assert(self@.visible::<C>(i as int));
                            }
                            r.push(f(e, c));
                        },
                        None => {
                            proof {
                                C::lemma_project_kind(*v);
                            }
                        },
                    },
                    None => {},
                }
            }
            proof {
                assert(self@.scan_upto::<C>((i + 1) as nat) == if self@.visible::<C>(i as int) {
                    self@.scan_upto::<C>(i as nat).push(i)
                } else {
                    self@.scan_upto::<C>(i as nat)
                });
            }
            i += 1;
        }
        r
    }
}

/// `post` is what a query over `A` alone with `f` makes of `pre`: the value
/// of every visited entity is replaced by one result of `f` on it;
/// everything else stays.
pub open spec fn ran1<A: Component, F: Fn((&A,)) -> (A,)>(pre: WorldView, post: WorldView, f: F) -> bool {
    &&& post.records == pre.records
    &&& post.synced == pre.synced
    &&& post.bits == pre.bits
    &&& post.stores.dom() == pre.stores.dom()
    &&& forall|k: ComponentKind|
        k != A::kind() && #[trigger] pre.stores.contains_key(k) ==> post.stores[k] == pre.stores[k]
    &&& post.stores[A::kind()].dom() == pre.stores[A::kind()].dom()
    &&& forall|i: usize|
        #[trigger] pre.holds(A::kind(), i) && !pre.visible::<A>(i as int) ==> post.stores[A::kind()][i]
            == pre.stores[A::kind()][i]
    &&& forall|i: usize| #[trigger]
        pre.visible::<A>(i as int) ==> post.component::<A>(i).is_some() && f.ensures(
            ((&pre.component::<A>(i).unwrap(),),),
            (post.component::<A>(i).unwrap(),),
        )
}

/// Whether a query over `A` and `B` visits index `i`: a synchronised living
/// entity that holds both.
pub open spec fn matched2<A: Component, B: Component>(w: WorldView, i: int) -> bool {
    w.visible::<A>(i) && w.holds(B::kind(), i as usize)
}

/// `post` is what a query over `A` and `B` with `f` makes of `pre`: the two
/// values of every visited entity are replaced by one result of `f` on them;
/// everything else stays.
pub open spec fn ran2<A: Component, B: Component, F: Fn((&A, &B)) -> (A, B)>(
    pre: WorldView,
    post: WorldView,
    f: F,
) -> bool {
    &&& post.records == pre.records
    &&& post.synced == pre.synced
    &&& post.bits == pre.bits
    &&& post.stores.dom() == pre.stores.dom()
    &&& forall|k: ComponentKind|
        k != A::kind() && k != B::kind() && #[trigger] pre.stores.contains_key(k) ==> post.stores[k]
            == pre.stores[k]
    &&& post.stores[A::kind()].dom() == pre.stores[A::kind()].dom()
    &&& post.stores[B::kind()].dom() == pre.stores[B::kind()].dom()
    &&& forall|i: usize|
        #[trigger] pre.holds(A::kind(), i) && !matched2::<A, B>(pre, i as int) ==> post.stores[A::kind()][i]
            == pre.stores[A::kind()][i]
    &&& forall|i: usize|
        #[trigger] pre.holds(B::kind(), i) && !matched2::<A, B>(pre, i as int) ==> post.stores[B::kind()][i]
            == pre.stores[B::kind()][i]
    &&& forall|i: usize| #[trigger]
        matched2::<A, B>(pre, i as int) ==> post.component::<A>(i).is_some()
            && post.component::<B>(i).is_some() && f.ensures(
            ((&pre.component::<A>(i).unwrap(), &pre.component::<B>(i).unwrap()),),
            (post.component::<A>(i).unwrap(), post.component::<B>(i).unwrap()),
        )
}

/// Whether a query over `A`, `B` and `C` visits index `i`: a synchronised
/// living entity that holds all three.
pub open spec fn matched3<A: Component, B: Component, C: Component>(w: WorldView, i: int) -> bool {
    w.visible::<A>(i) && w.holds(B::kind(), i as usize) && w.holds(C::kind(), i as usize)
}

/// `post` is what a query over `A`, `B` and `C` with `f` makes of `pre`: the
/// three values of every visited entity are replaced by one result of `f` on
/// them; everything else stays.
pub open spec fn ran3<A: Component, B: Component, C: Component, F: Fn((&A, &B, &C)) -> (A, B, C)>(
    pre: WorldView,
    post: WorldView,
    f: F,
) -> bool {
    &&& post.records == pre.records
    &&& post.synced == pre.synced
    &&& post.bits == pre.bits
    &&& post.stores.dom() == pre.stores.dom()
    &&& forall|k: ComponentKind|
        k != A::kind() && k != B::kind() && k != C::kind() && #[trigger] pre.stores.contains_key(k)
            ==> post.stores[k] == pre.stores[k]
    &&& post.stores[A::kind()].dom() == pre.stores[A::kind()].dom()
    &&& post.stores[B::kind()].dom() == pre.stores[B::kind()].dom()
    &&& post.stores[C::kind()].dom() == pre.stores[C::kind()].dom()
    &&& forall|i: usize|
        #[trigger] pre.holds(A::kind(), i) && !matched3::<A, B, C>(pre, i as int)
            ==> post.stores[A::kind()][i] == pre.stores[A::kind()][i]
    &&& forall|i: usize|
        #[trigger] pre.holds(B::kind(), i) && !matched3::<A, B, C>(pre, i as int)
            ==> post.stores[B::kind()][i] == pre.stores[B::kind()][i]
    &&& forall|i: usize|
        #[trigger] pre.holds(C::kind(), i) && !matched3::<A, B, C>(pre, i as int)
            ==> post.stores[C::kind()][i] == pre.stores[C::kind()][i]
    &&& forall|i: usize| #[trigger]
        matched3::<A, B, C>(pre, i as int) ==> post.component::<A>(i).is_some()
            && post.component::<B>(i).is_some() && post.component::<C>(i).is_some() && f.ensures(
            (
                (
                    &pre.component::<A>(i).unwrap(),
                    &pre.component::<B>(i).unwrap(),
                    &pre.component::<C>(i).unwrap(),
                ),
            ),
            (
                post.component::<A>(i).unwrap(),
                post.component::<B>(i).unwrap(),
                post.component::<C>(i).unwrap(),
            ),
        )
}

/// Whether a query over 4 types visits index `i`: a synchronised living
/// entity that holds all of them.
pub open spec fn matched4<A: Component, B: Component, C: Component, D: Component>(w: WorldView, i: int) -> bool {
    w.visible::<A>(i) && w.holds(B::kind(), i as usize) && w.holds(C::kind(), i as usize) && w.holds(D::kind(), i as usize)
}

/// `post` is what a query over 4 types with `f` makes of `pre`: the values
/// of every visited entity are replaced by one result of `f` on them;
/// everything else stays.
pub open spec fn ran4<
    A: Component,
    B: Component,
    C: Component,
    D: Component,
    Func: Fn((&A, &B, &C, &D)) -> (A, B, C, D),
>(
    pre: WorldView,
    post: WorldView,
    f: Func,
) -> bool {
    &&& post.records == pre.records
    &&& post.synced == pre.synced
    &&& post.bits == pre.bits
    &&& post.stores.dom() == pre.stores.dom()
    &&& forall|k: ComponentKind|
        k != A::kind() && k != B::kind() && k != C::kind() && k != D::kind() && #[trigger] pre.stores.contains_key(k)
            ==> post.stores[k] == pre.stores[k]
    &&& post.stores[A::kind()].dom() == pre.stores[A::kind()].dom()
    &&& post.stores[B::kind()].dom() == pre.stores[B::kind()].dom()
    &&& post.stores[C::kind()].dom() == pre.stores[C::kind()].dom()
    &&& post.stores[D::kind()].dom() == pre.stores[D::kind()].dom()
    &&& forall|i: usize|
        #[trigger] pre.holds(A::kind(), i) && !matched4::<A, B, C, D>(pre, i as int)
            ==> post.stores[A::kind()][i] == pre.stores[A::kind()][i]
    &&& forall|i: usize|
        #[trigger] pre.holds(B::kind(), i) && !matched4::<A, B, C, D>(pre, i as int)
            ==> post.stores[B::kind()][i] == pre.stores[B::kind()][i]
    &&& forall|i: usize|
        #[trigger] pre.holds(C::kind(), i) && !matched4::<A, B, C, D>(pre, i as int)
            ==> post.stores[C::kind()][i] == pre.stores[C::kind()][i]
    &&& forall|i: usize|
        #[trigger] pre.holds(D::kind(), i) && !matched4::<A, B, C, D>(pre, i as int)
            ==> post.stores[D::kind()][i] == pre.stores[D::kind()][i]
    &&& forall|i: usize| #[trigger]
        matched4::<A, B, C, D>(pre, i as int) ==> post.component::<A>(i).is_some() && post.component::<B>(i).is_some() && post.component::<C>(i).is_some() && post.component::<D>(i).is_some() && f.ensures(
            ((
                &pre.component::<A>(i).unwrap(),
                &pre.component::<B>(i).unwrap(),
                &pre.component::<C>(i).unwrap(),
                &pre.component::<D>(i).unwrap(),
            ),),
            (
                post.component::<A>(i).unwrap(),
                post.component::<B>(i).unwrap(),
                post.component::<C>(i).unwrap(),
                post.component::<D>(i).unwrap(),
            ),
        )
}

/// Whether a query over 5 types visits index `i`: a synchronised living
/// entity that holds all of them.
pub open spec fn matched5<A: Component, B: Component, C: Component, D: Component, E: Component>(w: WorldView, i: int) -> bool {
    w.visible::<A>(i) && w.holds(B::kind(), i as usize) && w.holds(C::kind(), i as usize) && w.holds(D::kind(), i as usize) && w.holds(E::kind(), i as usize)
}

/// `post` is what a query over 5 types with `f` makes of `pre`: the values
/// of every visited entity are replaced by one result of `f` on them;
/// everything else stays.
pub open spec fn ran5<
    A: Component,
    B: Component,
    C: Component,
    D: Component,
    E: Component,
    Func: Fn((&A, &B, &C, &D, &E)) -> (A, B, C, D, E),
>(
    pre: WorldView,
    post: WorldView,
    f: Func,
) -> bool {
    &&& post.records == pre.records
    &&& post.synced == pre.synced
    &&& post.bits == pre.bits
    &&& post.stores.dom() == pre.stores.dom()
    &&& forall|k: ComponentKind|
        k != A::kind() && k != B::kind() && k != C::kind() && k != D::kind() && k != E::kind() && #[trigger] pre.stores.contains_key(k)
            ==> post.stores[k] == pre.stores[k]
    &&& post.stores[A::kind()].dom() == pre.stores[A::kind()].dom()
    &&& post.stores[B::kind()].dom() == pre.stores[B::kind()].dom()
    &&& post.stores[C::kind()].dom() == pre.stores[C::kind()].dom()
    &&& post.stores[D::kind()].dom() == pre.stores[D::kind()].dom()
    &&& post.stores[E::kind()].dom() == pre.stores[E::kind()].dom()
    &&& forall|i: usize|
        #[trigger] pre.holds(A::kind(), i) && !matched5::<A, B, C, D, E>(pre, i as int)
            ==> post.stores[A::kind()][i] == pre.stores[A::kind()][i]
    &&& forall|i: usize|
        #[trigger] pre.holds(B::kind(), i) && !matched5::<A, B, C, D, E>(pre, i as int)
            ==> post.stores[B::kind()][i] == pre.stores[B::kind()][i]
    &&& forall|i: usize|
        #[trigger] pre.holds(C::kind(), i) && !matched5::<A, B, C, D, E>(pre, i as int)
            ==> post.stores[C::kind()][i] == pre.stores[C::kind()][i]
    &&& forall|i: usize|
        #[trigger] pre.holds(D::kind(), i) && !matched5::<A, B, C, D, E>(pre, i as int)
            ==> post.stores[D::kind()][i] == pre.stores[D::kind()][i]
    &&& forall|i: usize|
        #[trigger] pre.holds(E::kind(), i) && !matched5::<A, B, C, D, E>(pre, i as int)
            ==> post.stores[E::kind()][i] == pre.stores[E::kind()][i]
    &&& forall|i: usize| #[trigger]
        matched5::<A, B, C, D, E>(pre, i as int) ==> post.component::<A>(i).is_some() && post.component::<B>(i).is_some() && post.component::<C>(i).is_some() && post.component::<D>(i).is_some() && post.component::<E>(i).is_some() && f.ensures(
            ((
                &pre.component::<A>(i).unwrap(),
                &pre.component::<B>(i).unwrap(),
                &pre.component::<C>(i).unwrap(),
                &pre.component::<D>(i).unwrap(),
                &pre.component::<E>(i).unwrap(),
            ),),
            (
                post.component::<A>(i).unwrap(),
                post.component::<B>(i).unwrap(),
                post.component::<C>(i).unwrap(),
                post.component::<D>(i).unwrap(),
                post.component::<E>(i).unwrap(),
            ),
        )
}

/// Whether a query over 6 types visits index `i`: a synchronised living
/// entity that holds all of them.
pub open spec fn matched6<A: Component, B: Component, C: Component, D: Component, E: Component, F: Component>(w: WorldView, i: int) -> bool {
    w.visible::<A>(i) && w.holds(B::kind(), i as usize) && w.holds(C::kind(), i as usize) && w.holds(D::kind(), i as usize) && w.holds(E::kind(), i as usize) && w.holds(F::kind(), i as usize)
}

/// `post` is what a query over 6 types with `f` makes of `pre`: the values
/// of every visited entity are replaced by one result of `f` on them;
/// everything else stays.
pub open spec fn ran6<
    A: Component,
    B: Component,
    C: Component,
    D: Component,
    E: Component,
    F: Component,
    Func: Fn((&A, &B, &C, &D, &E, &F)) -> (A, B, C, D, E, F),
>(
    pre: WorldView,
    post: WorldView,
    f: Func,
) -> bool {
    &&& post.records == pre.records
    &&& post.synced == pre.synced
    &&& post.bits == pre.bits
    &&& post.stores.dom() == pre.stores.dom()
    &&& forall|k: ComponentKind|
        k != A::kind() && k != B::kind() && k != C::kind() && k != D::kind() && k != E::kind() && k != F::kind() && #[trigger] pre.stores.contains_key(k)
            ==> post.stores[k] == pre.stores[k]
    &&& post.stores[A::kind()].dom() == pre.stores[A::kind()].dom()
    &&& post.stores[B::kind()].dom() == pre.stores[B::kind()].dom()
    &&& post.stores[C::kind()].dom() == pre.stores[C::kind()].dom()
    &&& post.stores[D::kind()].dom() == pre.stores[D::kind()].dom()
    &&& post.stores[E::kind()].dom() == pre.stores[E::kind()].dom()
    &&& post.stores[F::kind()].dom() == pre.stores[F::kind()].dom()
    &&& forall|i: usize|
        #[trigger] pre.holds(A::kind(), i) && !matched6::<A, B, C, D, E, F>(pre, i as int)
            ==> post.stores[A::kind()][i] == pre.stores[A::kind()][i]
    &&& forall|i: usize|
        #[trigger] pre.holds(B::kind(), i) && !matched6::<A, B, C, D, E, F>(pre, i as int)
            ==> post.stores[B::kind()][i] == pre.stores[B::kind()][i]
    &&& forall|i: usize|
        #[trigger] pre.holds(C::kind(), i) && !matched6::<A, B, C, D, E, F>(pre, i as int)
            ==> post.stores[C::kind()][i] == pre.stores[C::kind()][i]
    &&& forall|i: usize|
        #[trigger] pre.holds(D::kind(), i) && !matched6::<A, B, C, D, E, F>(pre, i as int)
            ==> post.stores[D::kind()][i] == pre.stores[D::kind()][i]
    &&& forall|i: usize|
        #[trigger] pre.holds(E::kind(), i) && !matched6::<A, B, C, D, E, F>(pre, i as int)
            ==> post.stores[E::kind()][i] == pre.stores[E::kind()][i]
    &&& forall|i: usize|
        #[trigger] pre.holds(F::kind(), i) && !matched6::<A, B, C, D, E, F>(pre, i as int)
            ==> post.stores[F::kind()][i] == pre.stores[F::kind()][i]
    &&& forall|i: usize| #[trigger]
        matched6::<A, B, C, D, E, F>(pre, i as int) ==> post.component::<A>(i).is_some() && post.component::<B>(i).is_some() && post.component::<C>(i).is_some() && post.component::<D>(i).is_some() && post.component::<E>(i).is_some() && post.component::<F>(i).is_some() && f.ensures(
            ((
                &pre.component::<A>(i).unwrap(),
                &pre.component::<B>(i).unwrap(),
                &pre.component::<C>(i).unwrap(),
                &pre.component::<D>(i).unwrap(),
                &pre.component::<E>(i).unwrap(),
                &pre.component::<F>(i).unwrap(),
            ),),
            (
                post.component::<A>(i).unwrap(),
                post.component::<B>(i).unwrap(),
                post.component::<C>(i).unwrap(),
                post.component::<D>(i).unwrap(),
                post.component::<E>(i).unwrap(),
                post.component::<F>(i).unwrap(),
            ),
        )
}

/// Whether a query over 7 types visits index `i`: a synchronised living
/// entity that holds all of them.
pub open spec fn matched7<A: Component, B: Component, C: Component, D: Component, E: Component, F: Component, G: Component>(w: WorldView, i: int) -> bool {
    w.visible::<A>(i) && w.holds(B::kind(), i as usize) && w.holds(C::kind(), i as usize) && w.holds(D::kind(), i as usize) && w.holds(E::kind(), i as usize) && w.holds(F::kind(), i as usize) && w.holds(G::kind(), i as usize)
}

/// `post` is what a query over 7 types with `f` makes of `pre`: the values
/// of every visited entity are replaced by one result of `f` on them;
/// everything else stays.
pub open spec fn ran7<
    A: Component,
    B: Component,
    C: Component,
    D: Component,
    E: Component,
    F: Component,
    G: Component,
    Func: Fn((&A, &B, &C, &D, &E, &F, &G)) -> (A, B, C, D, E, F, G),
>(
    pre: WorldView,
    post: WorldView,
    f: Func,
) -> bool {
    &&& post.records == pre.records
    &&& post.synced == pre.synced
    &&& post.bits == pre.bits
    &&& post.stores.dom() == pre.stores.dom()
    &&& forall|k: ComponentKind|
        k != A::kind() && k != B::kind() && k != C::kind() && k != D::kind() && k != E::kind() && k != F::kind() && k != G::kind() && #[trigger] pre.stores.contains_key(k)
            ==> post.stores[k] == pre.stores[k]
    &&& post.stores[A::kind()].dom() == pre.stores[A::kind()].dom()
    &&& post.stores[B::kind()].dom() == pre.stores[B::kind()].dom()
    &&& post.stores[C::kind()].dom() == pre.stores[C::kind()].dom()
    &&& post.stores[D::kind()].dom() == pre.stores[D::kind()].dom()
    &&& post.stores[E::kind()].dom() == pre.stores[E::kind()].dom()
    &&& post.stores[F::kind()].dom() == pre.stores[F::kind()].dom()
    &&& post.stores[G::kind()].dom() == pre.stores[G::kind()].dom()
    &&& forall|i: usize|
        #[trigger] pre.holds(A::kind(), i) && !matched7::<A, B, C, D, E, F, G>(pre, i as int)
            ==> post.stores[A::kind()][i] == pre.stores[A::kind()][i]
    &&& forall|i: usize|
        #[trigger] pre.holds(B::kind(), i) && !matched7::<A, B, C, D, E, F, G>(pre, i as int)
            ==> post.stores[B::kind()][i] == pre.stores[B::kind()][i]
    &&& forall|i: usize|
        #[trigger] pre.holds(C::kind(), i) && !matched7::<A, B, C, D, E, F, G>(pre, i as int)
            ==> post.stores[C::kind()][i] == pre.stores[C::kind()][i]
    &&& forall|i: usize|
        #[trigger] pre.holds(D::kind(), i) && !matched7::<A, B, C, D, E, F, G>(pre, i as int)
            ==> post.stores[D::kind()][i] == pre.stores[D::kind()][i]
    &&& forall|i: usize|
        #[trigger] pre.holds(E::kind(), i) && !matched7::<A, B, C, D, E, F, G>(pre, i as int)
            ==> post.stores[E::kind()][i] == pre.stores[E::kind()][i]
    &&& forall|i: usize|
        #[trigger] pre.holds(F::kind(), i) && !matched7::<A, B, C, D, E, F, G>(pre, i as int)
            ==> post.stores[F::kind()][i] == pre.stores[F::kind()][i]
    &&& forall|i: usize|
        #[trigger] pre.holds(G::kind(), i) && !matched7::<A, B, C, D, E, F, G>(pre, i as int)
            ==> post.stores[G::kind()][i] == pre.stores[G::kind()][i]
    &&& forall|i: usize| #[trigger]
        matched7::<A, B, C, D, E, F, G>(pre, i as int) ==> post.component::<A>(i).is_some() && post.component::<B>(i).is_some() && post.component::<C>(i).is_some() && post.component::<D>(i).is_some() && post.component::<E>(i).is_some() && post.component::<F>(i).is_some() && post.component::<G>(i).is_some() && f.ensures(
            ((
                &pre.component::<A>(i).unwrap(),
                &pre.component::<B>(i).unwrap(),
                &pre.component::<C>(i).unwrap(),
                &pre.component::<D>(i).unwrap(),
                &pre.component::<E>(i).unwrap(),
                &pre.component::<F>(i).unwrap(),
                &pre.component::<G>(i).unwrap(),
            ),),
            (
                post.component::<A>(i).unwrap(),
                post.component::<B>(i).unwrap(),
                post.component::<C>(i).unwrap(),
                post.component::<D>(i).unwrap(),
                post.component::<E>(i).unwrap(),
                post.component::<F>(i).unwrap(),
                post.component::<G>(i).unwrap(),
            ),
        )
}

/// Whether a query over 8 types visits index `i`: a synchronised living
/// entity that holds all of them.
pub open spec fn matched8<A: Component, B: Component, C: Component, D: Component, E: Component, F: Component, G: Component, H: Component>(w: WorldView, i: int) -> bool {
    w.visible::<A>(i) && w.holds(B::kind(), i as usize) && w.holds(C::kind(), i as usize) && w.holds(D::kind(), i as usize) && w.holds(E::kind(), i as usize) && w.holds(F::kind(), i as usize) && w.holds(G::kind(), i as usize) && w.holds(H::kind(), i as usize)
}

/// `post` is what a query over 8 types with `f` makes of `pre`: the values
/// of every visited entity are replaced by one result of `f` on them;
/// everything else stays.
pub open spec fn ran8<
    A: Component,
    B: Component,
    C: Component,
    D: Component,
    E: Component,
    F: Component,
    G: Component,
    H: Component,
    Func: Fn((&A, &B, &C, &D, &E, &F, &G, &H)) -> (A, B, C, D, E, F, G, H),
>(
    pre: WorldView,
    post: WorldView,
    f: Func,
) -> bool {
    &&& post.records == pre.records
    &&& post.synced == pre.synced
    &&& post.bits == pre.bits
    &&& post.stores.dom() == pre.stores.dom()
    &&& forall|k: ComponentKind|
        k != A::kind() && k != B::kind() && k != C::kind() && k != D::kind() && k != E::kind() && k != F::kind() && k != G::kind() && k != H::kind() && #[trigger] pre.stores.contains_key(k)
            ==> post.stores[k] == pre.stores[k]
    &&& post.stores[A::kind()].dom() == pre.stores[A::kind()].dom()
    &&& post.stores[B::kind()].dom() == pre.stores[B::kind()].dom()
    &&& post.stores[C::kind()].dom() == pre.stores[C::kind()].dom()
    &&& post.stores[D::kind()].dom() == pre.stores[D::kind()].dom()
    &&& post.stores[E::kind()].dom() == pre.stores[E::kind()].dom()
    &&& post.stores[F::kind()].dom() == pre.stores[F::kind()].dom()
    &&& post.stores[G::kind()].dom() == pre.stores[G::kind()].dom()
    &&& post.stores[H::kind()].dom() == pre.stores[H::kind()].dom()
    &&& forall|i: usize|
        #[trigger] pre.holds(A::kind(), i) && !matched8::<A, B, C, D, E, F, G, H>(pre, i as int)
            ==> post.stores[A::kind()][i] == pre.stores[A::kind()][i]
    &&& forall|i: usize|
        #[trigger] pre.holds(B::kind(), i) && !matched8::<A, B, C, D, E, F, G, H>(pre, i as int)
            ==> post.stores[B::kind()][i] == pre.stores[B::kind()][i]
    &&& forall|i: usize|
        #[trigger] pre.holds(C::kind(), i) && !matched8::<A, B, C, D, E, F, G, H>(pre, i as int)
            ==> post.stores[C::kind()][i] == pre.stores[C::kind()][i]
    &&& forall|i: usize|
        #[trigger] pre.holds(D::kind(), i) && !matched8::<A, B, C, D, E, F, G, H>(pre, i as int)
            ==> post.stores[D::kind()][i] == pre.stores[D::kind()][i]
    &&& forall|i: usize|
        #[trigger] pre.holds(E::kind(), i) && !matched8::<A, B, C, D, E, F, G, H>(pre, i as int)
            ==> post.stores[E::kind()][i] == pre.stores[E::kind()][i]
    &&& forall|i: usize|
        #[trigger] pre.holds(F::kind(), i) && !matched8::<A, B, C, D, E, F, G, H>(pre, i as int)
            ==> post.stores[F::kind()][i] == pre.stores[F::kind()][i]
    &&& forall|i: usize|
        #[trigger] pre.holds(G::kind(), i) && !matched8::<A, B, C, D, E, F, G, H>(pre, i as int)
            ==> post.stores[G::kind()][i] == pre.stores[G::kind()][i]
    &&& forall|i: usize|
        #[trigger] pre.holds(H::kind(), i) && !matched8::<A, B, C, D, E, F, G, H>(pre, i as int)
            ==> post.stores[H::kind()][i] == pre.stores[H::kind()][i]
    &&& forall|i: usize| #[trigger]
        matched8::<A, B, C, D, E, F, G, H>(pre, i as int) ==> post.component::<A>(i).is_some() && post.component::<B>(i).is_some() && post.component::<C>(i).is_some() && post.component::<D>(i).is_some() && post.component::<E>(i).is_some() && post.component::<F>(i).is_some() && post.component::<G>(i).is_some() && post.component::<H>(i).is_some() && f.ensures(
            ((
                &pre.component::<A>(i).unwrap(),
                &pre.component::<B>(i).unwrap(),
                &pre.component::<C>(i).unwrap(),
                &pre.component::<D>(i).unwrap(),
                &pre.component::<E>(i).unwrap(),
                &pre.component::<F>(i).unwrap(),
                &pre.component::<G>(i).unwrap(),
                &pre.component::<H>(i).unwrap(),
            ),),
            (
                post.component::<A>(i).unwrap(),
                post.component::<B>(i).unwrap(),
                post.component::<C>(i).unwrap(),
                post.component::<D>(i).unwrap(),
                post.component::<E>(i).unwrap(),
                post.component::<F>(i).unwrap(),
                post.component::<G>(i).unwrap(),
                post.component::<H>(i).unwrap(),
            ),
        )
}

/// Runs a function over every synchronised living entity that holds all the
/// component types of `T`, and writes back the values it returns.
///
/// The function borrows the entity's current values and returns new ones; the
/// writes happen after it returns, so it never sees a half-written entity.
pub trait SystemRunner<T, F>: Sized {
    /// What `run` asks of the state and of `f`.
    spec fn run_requires(&self, f: F) -> bool;

    /// How `run` relates the state before to the state after.
    spec fn run_ensures(&self, post: &Self, f: F) -> bool;

    fn run(&mut self, f: F)
        requires
            old(self).run_requires(f),
        ensures
            old(self).run_ensures(final(self), f),
    ;
}

impl<A: Component, F: Fn((&A,)) -> (A,)> SystemRunner<(A,), F> for GameState {
    open spec fn run_requires(&self, f: F) -> bool {
        &&& self.wf()
        &&& self@.registered(A::kind())
        &&& forall|i: usize| #[trigger]
            self@.visible::<A>(i as int) ==> f.requires(((&self@.component::<A>(i).unwrap(),),))
    }

    open spec fn run_ensures(&self, post: &Self, f: F) -> bool {
        post.wf() && ran1::<A, F>(self@, post@, f)
    }

    fn run(&mut self, f: F) {
        let ka = A::kind_of();
        let ghost pre = self@;
        let ghost pre_state = *self;
        let n = self.entities.len();
        let mut i: usize = 0;
        while i < n
            invariant
                self.wf(),
                pre_state.run_requires(f),
                pre == pre_state@,
                ka == A::kind(),
                n == pre.synced,
                i <= n,
                self@.records == pre.records,
                self@.synced == pre.synced,
                self@.bits == pre.bits,
                self@.stores.dom() == pre.stores.dom(),
                forall|kk: ComponentKind|
                    kk != ka && #[trigger] pre.stores.contains_key(kk) ==> self@.stores[kk]
                        == pre.stores[kk],
                self@.stores[ka].dom() == pre.stores[ka].dom(),
                forall|j: usize|
                    #[trigger] pre.holds(ka, j) && (j >= i || !pre.visible::<A>(j as int))
                        ==> self@.stores[ka][j] == pre.stores[ka][j],
                forall|j: usize|
                    #[trigger] pre.visible::<A>(j as int) && j < i ==> self@.component::<A>(
                        j,
                    ).is_some() && f.ensures(
                        ((&pre.component::<A>(j).unwrap(),),),
                        (self@.component::<A>(j).unwrap(),),
                    ),
            decreases n - i,
        {
            let e = self.entities[i];
            proof {
                assert(self@.records[i as int] == e);
                assert(e.index() == i);
                assert(self@.stores[ComponentKind::Deleted].dom() == pre.stores[ComponentKind::Deleted].dom());
            }
            if self.is_alive(e) {
                let ghost before = *self;
                let next = match self.get_storage(ka).get(i) {
                    Some(va) => match A::peek(va) {
                        Some(a) => {
                            proof {
                                assert(pre.holds(ka, i));
                                assert(pre.visible::<A>(i as int));
                            }
                            Some(f((a,)))
                        },
                        None => None,
                    },
                    None => None,
                };
                match next {
                    Some((na,)) => {
                        let va = na.wrap();
                        proof {
                            A::lemma_into_value(na);
                        }
                        self.replace_value(ka, i, va);
                        proof {
                            assert(self@.stores.dom() =~= pre.stores.dom());
                            assert(self@.stores[ka].dom() =~= pre.stores[ka].dom());
                        }
                    },
                    None => {
                        proof {
                            if before@.holds(ka, i) {
                                A::lemma_project_kind(before@.stores[ka][i]);
                            }
                        }
                    },
                }
            }
            i += 1;
        }
        proof {
            assert forall|j: usize| #[trigger] pre.visible::<A>(j as int) implies self@.component::<A>(
                j,
            ).is_some() && f.ensures(
                ((&pre.component::<A>(j).unwrap(),),),
                (self@.component::<A>(j).unwrap(),),
            ) by {
                assert(j < n);
            }
        }
    }
}

impl<A: Component, B: Component, F: Fn((&A, &B)) -> (A, B)> SystemRunner<(A, B), F> for GameState {
    open spec fn run_requires(&self, f: F) -> bool {
        &&& self.wf()
        &&& self@.registered(A::kind())
        &&& self@.registered(B::kind())
        &&& A::kind() != B::kind()
        &&& forall|i: usize| #[trigger]
            matched2::<A, B>(self@, i as int) ==> f.requires(
                ((&self@.component::<A>(i).unwrap(), &self@.component::<B>(i).unwrap()),),
            )
    }

    open spec fn run_ensures(&self, post: &Self, f: F) -> bool {
        post.wf() && ran2::<A, B, F>(self@, post@, f)
    }

    fn run(&mut self, f: F) {
        let ka = A::kind_of();
        let kb = B::kind_of();
        let ghost pre = self@;
        let ghost pre_state = *self;
        let n = self.entities.len();
        let mut i: usize = 0;
        while i < n
            invariant
                self.wf(),
                pre_state.run_requires(f),
                pre == pre_state@,
                ka == A::kind(),
                kb == B::kind(),
                n == pre.synced,
                i <= n,
                self@.records == pre.records,
                self@.synced == pre.synced,
                self@.bits == pre.bits,
                self@.stores.dom() == pre.stores.dom(),
                forall|kk: ComponentKind|
                    kk != ka && kk != kb && #[trigger] pre.stores.contains_key(kk) ==> self@.stores[kk]
                        == pre.stores[kk],
                self@.stores[ka].dom() == pre.stores[ka].dom(),
                self@.stores[kb].dom() == pre.stores[kb].dom(),
                forall|j: usize|
                    #[trigger] pre.holds(ka, j) && (j >= i || !matched2::<A, B>(pre, j as int))
                        ==> self@.stores[ka][j] == pre.stores[ka][j],
                forall|j: usize|
                    #[trigger] pre.holds(kb, j) && (j >= i || !matched2::<A, B>(pre, j as int))
                        ==> self@.stores[kb][j] == pre.stores[kb][j],
                forall|j: usize|
                    #[trigger] matched2::<A, B>(pre, j as int) && j < i ==> self@.component::<A>(
                        j,
                    ).is_some() && self@.component::<B>(j).is_some() && f.ensures(
                        ((&pre.component::<A>(j).unwrap(), &pre.component::<B>(j).unwrap()),),
                        (self@.component::<A>(j).unwrap(), self@.component::<B>(j).unwrap()),
                    ),
            decreases n - i,
        {
            let e = self.entities[i];
            proof {
                assert(self@.records[i as int] == e);
                assert(e.index() == i);
                assert(self@.stores[ComponentKind::Deleted].dom() == pre.stores[ComponentKind::Deleted].dom());
            }
            if self.is_alive(e) {
                let ghost before = *self;
                let next = match (self.get_storage(ka).get(i), self.get_storage(kb).get(i)) {
                    (Some(va), Some(vb)) => match (A::peek(va), B::peek(vb)) {
                        (Some(a), Some(b)) => {
                            proof {
                                assert(pre.holds(ka, i) && pre.holds(kb, i));
                                assert(matched2::<A, B>(pre, i as int));
                            }
                            Some(f((a, b)))
                        },
                        _ => None,
                    },
                    _ => None,
                };
                match next {
                    Some((na, nb)) => {
                        let va = na.wrap();
                        let vb = nb.wrap();
                        proof {
                            A::lemma_into_value(na);
                            B::lemma_into_value(nb);
                        }
                        self.replace_value(ka, i, va);
                        self.replace_value(kb, i, vb);
                        proof {
                            assert(self@.stores.dom() =~= pre.stores.dom());
                            assert(self@.stores[ka].dom() =~= pre.stores[ka].dom());
                            assert(self@.stores[kb].dom() =~= pre.stores[kb].dom());
                        }
                    },
                    None => {
                        proof {
                            if before@.holds(ka, i) && before@.holds(kb, i) {
                                A::lemma_project_kind(before@.stores[ka][i]);
                                B::lemma_project_kind(before@.stores[kb][i]);
                            }
                        }
                    },
                }
            }
            i += 1;
        }
        proof {
            assert forall|j: usize| #[trigger] matched2::<A, B>(pre, j as int) implies self@.component::<A>(
                j,
            ).is_some() && self@.component::<B>(j).is_some() && f.ensures(
                ((&pre.component::<A>(j).unwrap(), &pre.component::<B>(j).unwrap()),),
                (self@.component::<A>(j).unwrap(), self@.component::<B>(j).unwrap()),
            ) by {
                assert(j < n);
            }
        }
    }
}

impl<
    A: Component,
    B: Component,
    C: Component,
    F: Fn((&A, &B, &C)) -> (A, B, C),
> SystemRunner<(A, B, C), F> for GameState {
    open spec fn run_requires(&self, f: F) -> bool {
        &&& self.wf()
        &&& self@.registered(A::kind())
        &&& self@.registered(B::kind())
        &&& self@.registered(C::kind())
        &&& A::kind() != B::kind()
        &&& A::kind() != C::kind()
        &&& B::kind() != C::kind()
        &&& forall|i: usize| #[trigger]
            matched3::<A, B, C>(self@, i as int) ==> f.requires(
                (
                    (
                        &self@.component::<A>(i).unwrap(),
                        &self@.component::<B>(i).unwrap(),
                        &self@.component::<C>(i).unwrap(),
                    ),
                ),
            )
    }

    open spec fn run_ensures(&self, post: &Self, f: F) -> bool {
        post.wf() && ran3::<A, B, C, F>(self@, post@, f)
    }

    fn run(&mut self, f: F) {
        let ka = A::kind_of();
        let kb = B::kind_of();
        let kc = C::kind_of();
        let ghost pre = self@;
        let ghost pre_state = *self;
        let n = self.entities.len();
        let mut i: usize = 0;
        while i < n
            invariant
                self.wf(),
                pre_state.run_requires(f),
                pre == pre_state@,
                ka == A::kind(),
                kb == B::kind(),
                kc == C::kind(),
                n == pre.synced,
                i <= n,
                self@.records == pre.records,
                self@.synced == pre.synced,
                self@.bits == pre.bits,
                self@.stores.dom() == pre.stores.dom(),
                forall|kk: ComponentKind|
                    kk != ka && kk != kb && kk != kc && #[trigger] pre.stores.contains_key(kk)
                        ==> self@.stores[kk] == pre.stores[kk],
                self@.stores[ka].dom() == pre.stores[ka].dom(),
                self@.stores[kb].dom() == pre.stores[kb].dom(),
                self@.stores[kc].dom() == pre.stores[kc].dom(),
                forall|j: usize|
                    #[trigger] pre.holds(ka, j) && (j >= i || !matched3::<A, B, C>(pre, j as int))
                        ==> self@.stores[ka][j] == pre.stores[ka][j],
                forall|j: usize|
                    #[trigger] pre.holds(kb, j) && (j >= i || !matched3::<A, B, C>(pre, j as int))
                        ==> self@.stores[kb][j] == pre.stores[kb][j],
                forall|j: usize|
                    #[trigger] pre.holds(kc, j) && (j >= i || !matched3::<A, B, C>(pre, j as int))
                        ==> self@.stores[kc][j] == pre.stores[kc][j],
                forall|j: usize|
                    #[trigger] matched3::<A, B, C>(pre, j as int) && j < i ==> self@.component::<A>(
                        j,
                    ).is_some() && self@.component::<B>(j).is_some() && self@.component::<C>(
                        j,
                    ).is_some() && f.ensures(
                        (
                            (
                                &pre.component::<A>(j).unwrap(),
                                &pre.component::<B>(j).unwrap(),
                                &pre.component::<C>(j).unwrap(),
                            ),
                        ),
                        (
                            self@.component::<A>(j).unwrap(),
                            self@.component::<B>(j).unwrap(),
                            self@.component::<C>(j).unwrap(),
                        ),
                    ),
            decreases n - i,
        {
            let e = self.entities[i];
            proof {
                assert(self@.records[i as int] == e);
                assert(e.index() == i);
                assert(self@.stores[ComponentKind::Deleted].dom() == pre.stores[ComponentKind::Deleted].dom());
            }
            if self.is_alive(e) {
                let ghost before = *self;
                let next = match (
                    self.get_storage(ka).get(i),
                    self.get_storage(kb).get(i),
                    self.get_storage(kc).get(i),
                ) {
                    (Some(va), Some(vb), Some(vc)) => match (A::peek(va), B::peek(vb), C::peek(vc)) {
                        (Some(a), Some(b), Some(c)) => {
                            proof {
                                assert(pre.holds(ka, i) && pre.holds(kb, i) && pre.holds(kc, i));
                                assert(matched3::<A, B, C>(pre, i as int));
                            }
                            Some(f((a, b, c)))
                        },
                        _ => None,
                    },
                    _ => None,
                };
                match next {
                    Some((na, nb, nc)) => {
                        let va = na.wrap();
                        let vb = nb.wrap();
                        let vc = nc.wrap();
                        proof {
                            A::lemma_into_value(na);
                            B::lemma_into_value(nb);
                            C::lemma_into_value(nc);
                        }
                        self.replace_value(ka, i, va);
                        self.replace_value(kb, i, vb);
                        self.replace_value(kc, i, vc);
                        proof {
                            assert(self@.stores.dom() =~= pre.stores.dom());
                            assert(self@.stores[ka].dom() =~= pre.stores[ka].dom());
                            assert(self@.stores[kb].dom() =~= pre.stores[kb].dom());
                            assert(self@.stores[kc].dom() =~= pre.stores[kc].dom());
                        }
                    },
                    None => {
                        proof {
                            if before@.holds(ka, i) && before@.holds(kb, i) && before@.holds(kc, i) {
                                A::lemma_project_kind(before@.stores[ka][i]);
                                B::lemma_project_kind(before@.stores[kb][i]);
                                C::lemma_project_kind(before@.stores[kc][i]);
                            }
                        }
                    },
                }
            }
            i += 1;
        }
        proof {
            assert forall|j: usize| #[trigger] matched3::<A, B, C>(pre, j as int) implies self@.component::<A>(
                j,
            ).is_some() && self@.component::<B>(j).is_some() && self@.component::<C>(j).is_some()
                && f.ensures(
                (
                    (
                        &pre.component::<A>(j).unwrap(),
                        &pre.component::<B>(j).unwrap(),
                        &pre.component::<C>(j).unwrap(),
                    ),
                ),
                (
                    self@.component::<A>(j).unwrap(),
                    self@.component::<B>(j).unwrap(),
                    self@.component::<C>(j).unwrap(),
                ),
            ) by {
                assert(j < n);
            }
        }
    }
}

impl<
    A: Component,
    B: Component,
    C: Component,
    D: Component,
    Func: Fn((&A, &B, &C, &D)) -> (A, B, C, D),
> SystemRunner<(A, B, C, D), Func> for GameState {
    open spec fn run_requires(&self, f: Func) -> bool {
        &&& self.wf()
        &&& self@.registered(A::kind())
        &&& self@.registered(B::kind())
        &&& self@.registered(C::kind())
        &&& self@.registered(D::kind())
        &&& A::kind() != B::kind()
        &&& A::kind() != C::kind()
        &&& A::kind() != D::kind()
        &&& B::kind() != C::kind()
        &&& B::kind() != D::kind()
        &&& C::kind() != D::kind()
        &&& forall|i: usize| #[trigger]
            matched4::<A, B, C, D>(self@, i as int) ==> f.requires(((
                    &self@.component::<A>(i).unwrap(),
                    &self@.component::<B>(i).unwrap(),
                    &self@.component::<C>(i).unwrap(),
                    &self@.component::<D>(i).unwrap(),
                ),))
    }

    open spec fn run_ensures(&self, post: &Self, f: Func) -> bool {
        post.wf() && ran4::<A, B, C, D, Func>(self@, post@, f)
    }

    fn run(&mut self, f: Func) {
        let ka = A::kind_of();
        let kb = B::kind_of();
        let kc = C::kind_of();
        let kd = D::kind_of();
        let ghost pre = self@;
        let ghost pre_state = *self;
        let n = self.entities.len();
        let mut i: usize = 0;
        while i < n
            invariant
                self.wf(),
                pre_state.run_requires(f),
                pre == pre_state@,
                ka == A::kind(),
                kb == B::kind(),
                kc == C::kind(),
                kd == D::kind(),
                n == pre.synced,
                i <= n,
                self@.records == pre.records,
                self@.synced == pre.synced,
                self@.bits == pre.bits,
                self@.stores.dom() == pre.stores.dom(),
                forall|kk: ComponentKind|
                    kk != ka && kk != kb && kk != kc && kk != kd && #[trigger] pre.stores.contains_key(kk)
                        ==> self@.stores[kk] == pre.stores[kk],
                self@.stores[ka].dom() == pre.stores[ka].dom(),
                self@.stores[kb].dom() == pre.stores[kb].dom(),
                self@.stores[kc].dom() == pre.stores[kc].dom(),
                self@.stores[kd].dom() == pre.stores[kd].dom(),
                forall|j: usize|
                    #[trigger] pre.holds(ka, j) && (j >= i || !matched4::<A, B, C, D>(pre, j as int))
                        ==> self@.stores[ka][j] == pre.stores[ka][j],
                forall|j: usize|
                    #[trigger] pre.holds(kb, j) && (j >= i || !matched4::<A, B, C, D>(pre, j as int))
                        ==> self@.stores[kb][j] == pre.stores[kb][j],
                forall|j: usize|
                    #[trigger] pre.holds(kc, j) && (j >= i || !matched4::<A, B, C, D>(pre, j as int))
                        ==> self@.stores[kc][j] == pre.stores[kc][j],
                forall|j: usize|
                    #[trigger] pre.holds(kd, j) && (j >= i || !matched4::<A, B, C, D>(pre, j as int))
                        ==> self@.stores[kd][j] == pre.stores[kd][j],
                forall|j: usize|
                    #[trigger] matched4::<A, B, C, D>(pre, j as int) && j < i ==> self@.component::<A>(j).is_some() && self@.component::<B>(j).is_some() && self@.component::<C>(j).is_some() && self@.component::<D>(j).is_some() && f.ensures(
                        ((
                            &pre.component::<A>(j).unwrap(),
                            &pre.component::<B>(j).unwrap(),
                            &pre.component::<C>(j).unwrap(),
                            &pre.component::<D>(j).unwrap(),
                        ),),
                        (
                            self@.component::<A>(j).unwrap(),
                            self@.component::<B>(j).unwrap(),
                            self@.component::<C>(j).unwrap(),
                            self@.component::<D>(j).unwrap(),
                        ),
                    ),
            decreases n - i,
        {
            let e = self.entities[i];
            proof {
                assert(self@.records[i as int] == e);
                assert(e.index() == i);
                assert(self@.stores[ComponentKind::Deleted].dom() == pre.stores[ComponentKind::Deleted].dom());
            }
            if self.is_alive(e) {
                let ghost before = *self;
                let next = match (
                    self.get_storage(ka).get(i),
                    self.get_storage(kb).get(i),
                    self.get_storage(kc).get(i),
                    self.get_storage(kd).get(i),
                ) {
                    (Some(va), Some(vb), Some(vc), Some(vd)) => match (A::peek(va), B::peek(vb), C::peek(vc), D::peek(vd)) {
                        (Some(xa), Some(xb), Some(xc), Some(xd)) => {
                            proof {
                                assert(pre.holds(ka, i) && pre.holds(kb, i) && pre.holds(kc, i) && pre.holds(kd, i));
                                assert(matched4::<A, B, C, D>(pre, i as int));
                            }
                            Some(f((xa, xb, xc, xd)))
                        },
                        _ => None,
                    },
                    _ => None,
                };
                match next {
                    Some((na, nb, nc, nd)) => {
                        let wa = na.wrap();
                        let wb = nb.wrap();
                        let wc = nc.wrap();
                        let wd = nd.wrap();
                        proof {
                            A::lemma_into_value(na);
                            B::lemma_into_value(nb);
                            C::lemma_into_value(nc);
                            D::lemma_into_value(nd);
                        }
                        self.replace_value(ka, i, wa);
                        self.replace_value(kb, i, wb);
                        self.replace_value(kc, i, wc);
                        self.replace_value(kd, i, wd);
                        proof {
                            assert(self@.stores.dom() =~= pre.stores.dom());
                            assert(self@.stores[ka].dom() =~= pre.stores[ka].dom());
                            assert(self@.stores[kb].dom() =~= pre.stores[kb].dom());
                            assert(self@.stores[kc].dom() =~= pre.stores[kc].dom());
                            assert(self@.stores[kd].dom() =~= pre.stores[kd].dom());
                        }
                    },
                    None => {
                        proof {
                            if before@.holds(ka, i) && before@.holds(kb, i) && before@.holds(kc, i) && before@.holds(kd, i) {
                                A::lemma_project_kind(before@.stores[ka][i]);
                                B::lemma_project_kind(before@.stores[kb][i]);
                                C::lemma_project_kind(before@.stores[kc][i]);
                                D::lemma_project_kind(before@.stores[kd][i]);
                            }
                        }
                    },
                }
            }
            i += 1;
        }
        proof {
            assert forall|j: usize| #[trigger] matched4::<A, B, C, D>(pre, j as int) implies self@.component::<A>(j).is_some() && self@.component::<B>(j).is_some() && self@.component::<C>(j).is_some() && self@.component::<D>(j).is_some() && f.ensures(
                ((
                    &pre.component::<A>(j).unwrap(),
                    &pre.component::<B>(j).unwrap(),
                    &pre.component::<C>(j).unwrap(),
                    &pre.component::<D>(j).unwrap(),
                ),),
                (
                    self@.component::<A>(j).unwrap(),
                    self@.component::<B>(j).unwrap(),
                    self@.component::<C>(j).unwrap(),
                    self@.component::<D>(j).unwrap(),
                ),
            ) by {
                assert(j < n);
            }
        }
    }
}

impl<
    A: Component,
    B: Component,
    C: Component,
    D: Component,
    E: Component,
    Func: Fn((&A, &B, &C, &D, &E)) -> (A, B, C, D, E),
> SystemRunner<(A, B, C, D, E), Func> for GameState {
    open spec fn run_requires(&self, f: Func) -> bool {
        &&& self.wf()
        &&& self@.registered(A::kind())
        &&& self@.registered(B::kind())
        &&& self@.registered(C::kind())
        &&& self@.registered(D::kind())
        &&& self@.registered(E::kind())
        &&& A::kind() != B::kind()
        &&& A::kind() != C::kind()
        &&& A::kind() != D::kind()
        &&& A::kind() != E::kind()
        &&& B::kind() != C::kind()
        &&& B::kind() != D::kind()
        &&& B::kind() != E::kind()
        &&& C::kind() != D::kind()
        &&& C::kind() != E::kind()
        &&& D::kind() != E::kind()
        &&& forall|i: usize| #[trigger]
            matched5::<A, B, C, D, E>(self@, i as int) ==> f.requires(((
                    &self@.component::<A>(i).unwrap(),
                    &self@.component::<B>(i).unwrap(),
                    &self@.component::<C>(i).unwrap(),
                    &self@.component::<D>(i).unwrap(),
                    &self@.component::<E>(i).unwrap(),
                ),))
    }

    open spec fn run_ensures(&self, post: &Self, f: Func) -> bool {
        post.wf() && ran5::<A, B, C, D, E, Func>(self@, post@, f)
    }

    fn run(&mut self, f: Func) {
        let ka = A::kind_of();
        let kb = B::kind_of();
        let kc = C::kind_of();
        let kd = D::kind_of();
        let ke = E::kind_of();
        let ghost pre = self@;
        let ghost pre_state = *self;
        let n = self.entities.len();
        let mut i: usize = 0;
        while i < n
            invariant
                self.wf(),
                pre_state.run_requires(f),
                pre == pre_state@,
                ka == A::kind(),
                kb == B::kind(),
                kc == C::kind(),
                kd == D::kind(),
                ke == E::kind(),
                n == pre.synced,
                i <= n,
                self@.records == pre.records,
                self@.synced == pre.synced,
                self@.bits == pre.bits,
                self@.stores.dom() == pre.stores.dom(),
                forall|kk: ComponentKind|
                    kk != ka && kk != kb && kk != kc && kk != kd && kk != ke && #[trigger] pre.stores.contains_key(kk)
                        ==> self@.stores[kk] == pre.stores[kk],
                self@.stores[ka].dom() == pre.stores[ka].dom(),
                self@.stores[kb].dom() == pre.stores[kb].dom(),
                self@.stores[kc].dom() == pre.stores[kc].dom(),
                self@.stores[kd].dom() == pre.stores[kd].dom(),
                self@.stores[ke].dom() == pre.stores[ke].dom(),
                forall|j: usize|
                    #[trigger] pre.holds(ka, j) && (j >= i || !matched5::<A, B, C, D, E>(pre, j as int))
                        ==> self@.stores[ka][j] == pre.stores[ka][j],
                forall|j: usize|
                    #[trigger] pre.holds(kb, j) && (j >= i || !matched5::<A, B, C, D, E>(pre, j as int))
                        ==> self@.stores[kb][j] == pre.stores[kb][j],
                forall|j: usize|
                    #[trigger] pre.holds(kc, j) && (j >= i || !matched5::<A, B, C, D, E>(pre, j as int))
                        ==> self@.stores[kc][j] == pre.stores[kc][j],
                forall|j: usize|
                    #[trigger] pre.holds(kd, j) && (j >= i || !matched5::<A, B, C, D, E>(pre, j as int))
                        ==> self@.stores[kd][j] == pre.stores[kd][j],
                forall|j: usize|
                    #[trigger] pre.holds(ke, j) && (j >= i || !matched5::<A, B, C, D, E>(pre, j as int))
                        ==> self@.stores[ke][j] == pre.stores[ke][j],
                forall|j: usize|
                    #[trigger] matched5::<A, B, C, D, E>(pre, j as int) && j < i ==> self@.component::<A>(j).is_some() && self@.component::<B>(j).is_some() && self@.component::<C>(j).is_some() && self@.component::<D>(j).is_some() && self@.component::<E>(j).is_some() && f.ensures(
                        ((
                            &pre.component::<A>(j).unwrap(),
                            &pre.component::<B>(j).unwrap(),
                            &pre.component::<C>(j).unwrap(),
                            &pre.component::<D>(j).unwrap(),
                            &pre.component::<E>(j).unwrap(),
                        ),),
                        (
                            self@.component::<A>(j).unwrap(),
                            self@.component::<B>(j).unwrap(),
                            self@.component::<C>(j).unwrap(),
                            self@.component::<D>(j).unwrap(),
                            self@.component::<E>(j).unwrap(),
                        ),
                    ),
            decreases n - i,
        {
            let e = self.entities[i];
            proof {
                assert(self@.records[i as int] == e);
                assert(e.index() == i);
                assert(self@.stores[ComponentKind::Deleted].dom() == pre.stores[ComponentKind::Deleted].dom());
            }
            if self.is_alive(e) {
                let ghost before = *self;
                let next = match (
                    self.get_storage(ka).get(i),
                    self.get_storage(kb).get(i),
                    self.get_storage(kc).get(i),
                    self.get_storage(kd).get(i),
                    self.get_storage(ke).get(i),
                ) {
                    (Some(va), Some(vb), Some(vc), Some(vd), Some(ve)) => match (A::peek(va), B::peek(vb), C::peek(vc), D::peek(vd), E::peek(ve)) {
                        (Some(xa), Some(xb), Some(xc), Some(xd), Some(xe)) => {
                            proof {
                                assert(pre.holds(ka, i) && pre.holds(kb, i) && pre.holds(kc, i) && pre.holds(kd, i) && pre.holds(ke, i));
                                assert(matched5::<A, B, C, D, E>(pre, i as int));
                            }
                            Some(f((xa, xb, xc, xd, xe)))
                        },
                        _ => None,
                    },
                    _ => None,
                };
                match next {
                    Some((na, nb, nc, nd, ne)) => {
                        let wa = na.wrap();
                        let wb = nb.wrap();
                        let wc = nc.wrap();
                        let wd = nd.wrap();
                        let we = ne.wrap();
                        proof {
                            A::lemma_into_value(na);
                            B::lemma_into_value(nb);
                            C::lemma_into_value(nc);
                            D::lemma_into_value(nd);
                            E::lemma_into_value(ne);
                        }
                        self.replace_value(ka, i, wa);
                        self.replace_value(kb, i, wb);
                        self.replace_value(kc, i, wc);
                        self.replace_value(kd, i, wd);
                        self.replace_value(ke, i, we);
                        proof {
                            assert(self@.stores.dom() =~= pre.stores.dom());
                            assert(self@.stores[ka].dom() =~= pre.stores[ka].dom());
                            assert(self@.stores[kb].dom() =~= pre.stores[kb].dom());
                            assert(self@.stores[kc].dom() =~= pre.stores[kc].dom());
                            assert(self@.stores[kd].dom() =~= pre.stores[kd].dom());
                            assert(self@.stores[ke].dom() =~= pre.stores[ke].dom());
                        }
                    },
                    None => {
                        proof {
                            if before@.holds(ka, i) && before@.holds(kb, i) && before@.holds(kc, i) && before@.holds(kd, i) && before@.holds(ke, i) {
                                A::lemma_project_kind(before@.stores[ka][i]);
                                B::lemma_project_kind(before@.stores[kb][i]);
                                C::lemma_project_kind(before@.stores[kc][i]);
                                D::lemma_project_kind(before@.stores[kd][i]);
                                E::lemma_project_kind(before@.stores[ke][i]);
                            }
                        }
                    },
                }
            }
            i += 1;
        }
        proof {
            assert forall|j: usize| #[trigger] matched5::<A, B, C, D, E>(pre, j as int) implies self@.component::<A>(j).is_some() && self@.component::<B>(j).is_some() && self@.component::<C>(j).is_some() && self@.component::<D>(j).is_some() && self@.component::<E>(j).is_some() && f.ensures(
                ((
                    &pre.component::<A>(j).unwrap(),
                    &pre.component::<B>(j).unwrap(),
                    &pre.component::<C>(j).unwrap(),
                    &pre.component::<D>(j).unwrap(),
                    &pre.component::<E>(j).unwrap(),
                ),),
                (
                    self@.component::<A>(j).unwrap(),
                    self@.component::<B>(j).unwrap(),
                    self@.component::<C>(j).unwrap(),
                    self@.component::<D>(j).unwrap(),
                    self@.component::<E>(j).unwrap(),
                ),
            ) by {
                assert(j < n);
            }
        }
    }
}

impl<
    A: Component,
    B: Component,
    C: Component,
    D: Component,
    E: Component,
    F: Component,
    Func: Fn((&A, &B, &C, &D, &E, &F)) -> (A, B, C, D, E, F),
> SystemRunner<(A, B, C, D, E, F), Func> for GameState {
    open spec fn run_requires(&self, f: Func) -> bool {
        &&& self.wf()
        &&& self@.registered(A::kind())
        &&& self@.registered(B::kind())
        &&& self@.registered(C::kind())
        &&& self@.registered(D::kind())
        &&& self@.registered(E::kind())
        &&& self@.registered(F::kind())
        &&& A::kind() != B::kind()
        &&& A::kind() != C::kind()
        &&& A::kind() != D::kind()
        &&& A::kind() != E::kind()
        &&& A::kind() != F::kind()
        &&& B::kind() != C::kind()
        &&& B::kind() != D::kind()
        &&& B::kind() != E::kind()
        &&& B::kind() != F::kind()
        &&& C::kind() != D::kind()
        &&& C::kind() != E::kind()
        &&& C::kind() != F::kind()
        &&& D::kind() != E::kind()
        &&& D::kind() != F::kind()
        &&& E::kind() != F::kind()
        &&& forall|i: usize| #[trigger]
            matched6::<A, B, C, D, E, F>(self@, i as int) ==> f.requires(((
                    &self@.component::<A>(i).unwrap(),
                    &self@.component::<B>(i).unwrap(),
                    &self@.component::<C>(i).unwrap(),
                    &self@.component::<D>(i).unwrap(),
                    &self@.component::<E>(i).unwrap(),
                    &self@.component::<F>(i).unwrap(),
                ),))
    }

    open spec fn run_ensures(&self, post: &Self, f: Func) -> bool {
        post.wf() && ran6::<A, B, C, D, E, F, Func>(self@, post@, f)
    }

    fn run(&mut self, f: Func) {
        let ka = A::kind_of();
        let kb = B::kind_of();
        let kc = C::kind_of();
        let kd = D::kind_of();
        let ke = E::kind_of();
        let kf = F::kind_of();
        let ghost pre = self@;
        let ghost pre_state = *self;
        let n = self.entities.len();
        let mut i: usize = 0;
        while i < n
            invariant
                self.wf(),
                pre_state.run_requires(f),
                pre == pre_state@,
                ka == A::kind(),
                kb == B::kind(),
                kc == C::kind(),
                kd == D::kind(),
                ke == E::kind(),
                kf == F::kind(),
                n == pre.synced,
                i <= n,
                self@.records == pre.records,
                self@.synced == pre.synced,
                self@.bits == pre.bits,
                self@.stores.dom() == pre.stores.dom(),
                forall|kk: ComponentKind|
                    kk != ka && kk != kb && kk != kc && kk != kd && kk != ke && kk != kf && #[trigger] pre.stores.contains_key(kk)
                        ==> self@.stores[kk] == pre.stores[kk],
                self@.stores[ka].dom() == pre.stores[ka].dom(),
                self@.stores[kb].dom() == pre.stores[kb].dom(),
                self@.stores[kc].dom() == pre.stores[kc].dom(),
                self@.stores[kd].dom() == pre.stores[kd].dom(),
                self@.stores[ke].dom() == pre.stores[ke].dom(),
                self@.stores[kf].dom() == pre.stores[kf].dom(),
                forall|j: usize|
                    #[trigger] pre.holds(ka, j) && (j >= i || !matched6::<A, B, C, D, E, F>(pre, j as int))
                        ==> self@.stores[ka][j] == pre.stores[ka][j],
                forall|j: usize|
                    #[trigger] pre.holds(kb, j) && (j >= i || !matched6::<A, B, C, D, E, F>(pre, j as int))
                        ==> self@.stores[kb][j] == pre.stores[kb][j],
                forall|j: usize|
                    #[trigger] pre.holds(kc, j) && (j >= i || !matched6::<A, B, C, D, E, F>(pre, j as int))
                        ==> self@.stores[kc][j] == pre.stores[kc][j],
                forall|j: usize|
                    #[trigger] pre.holds(kd, j) && (j >= i || !matched6::<A, B, C, D, E, F>(pre, j as int))
                        ==> self@.stores[kd][j] == pre.stores[kd][j],
                forall|j: usize|
                    #[trigger] pre.holds(ke, j) && (j >= i || !matched6::<A, B, C, D, E, F>(pre, j as int))
                        ==> self@.stores[ke][j] == pre.stores[ke][j],
                forall|j: usize|
                    #[trigger] pre.holds(kf, j) && (j >= i || !matched6::<A, B, C, D, E, F>(pre, j as int))
                        ==> self@.stores[kf][j] == pre.stores[kf][j],
                forall|j: usize|
                    #[trigger] matched6::<A, B, C, D, E, F>(pre, j as int) && j < i ==> self@.component::<A>(j).is_some() && self@.component::<B>(j).is_some() && self@.component::<C>(j).is_some() && self@.component::<D>(j).is_some() && self@.component::<E>(j).is_some() && self@.component::<F>(j).is_some() && f.ensures(
                        ((
                            &pre.component::<A>(j).unwrap(),
                            &pre.component::<B>(j).unwrap(),
                            &pre.component::<C>(j).unwrap(),
                            &pre.component::<D>(j).unwrap(),
                            &pre.component::<E>(j).unwrap(),
                            &pre.component::<F>(j).unwrap(),
                        ),),
                        (
                            self@.component::<A>(j).unwrap(),
                            self@.component::<B>(j).unwrap(),
                            self@.component::<C>(j).unwrap(),
                            self@.component::<D>(j).unwrap(),
                            self@.component::<E>(j).unwrap(),
                            self@.component::<F>(j).unwrap(),
                        ),
                    ),
            decreases n - i,
        {
            let e = self.entities[i];
            proof {
                assert(self@.records[i as int] == e);
                assert(e.index() == i);
                assert(self@.stores[ComponentKind::Deleted].dom() == pre.stores[ComponentKind::Deleted].dom());
            }
            if self.is_alive(e) {
                let ghost before = *self;
                let next = match (
                    self.get_storage(ka).get(i),
                    self.get_storage(kb).get(i),
                    self.get_storage(kc).get(i),
                    self.get_storage(kd).get(i),
                    self.get_storage(ke).get(i),
                    self.get_storage(kf).get(i),
                ) {
                    (Some(va), Some(vb), Some(vc), Some(vd), Some(ve), Some(vf)) => match (A::peek(va), B::peek(vb), C::peek(vc), D::peek(vd), E::peek(ve), F::peek(vf)) {
                        (Some(xa), Some(xb), Some(xc), Some(xd), Some(xe), Some(xf)) => {
                            proof {
                                assert(pre.holds(ka, i) && pre.holds(kb, i) && pre.holds(kc, i) && pre.holds(kd, i) && pre.holds(ke, i) && pre.holds(kf, i));
                                assert(matched6::<A, B, C, D, E, F>(pre, i as int));
                            }
                            Some(f((xa, xb, xc, xd, xe, xf)))
                        },
                        _ => None,
                    },
                    _ => None,
                };
                match next {
                    Some((na, nb, nc, nd, ne, nf)) => {
                        let wa = na.wrap();
                        let wb = nb.wrap();
                        let wc = nc.wrap();
                        let wd = nd.wrap();
                        let we = ne.wrap();
                        let wf = nf.wrap();
                        proof {
                            A::lemma_into_value(na);
                            B::lemma_into_value(nb);
                            C::lemma_into_value(nc);
                            D::lemma_into_value(nd);
                            E::lemma_into_value(ne);
                            F::lemma_into_value(nf);
                        }
                        self.replace_value(ka, i, wa);
                        self.replace_value(kb, i, wb);
                        self.replace_value(kc, i, wc);
                        self.replace_value(kd, i, wd);
                        self.replace_value(ke, i, we);
                        self.replace_value(kf, i, wf);
                        proof {
                            assert(self@.stores.dom() =~= pre.stores.dom());
                            assert(self@.stores[ka].dom() =~= pre.stores[ka].dom());
                            assert(self@.stores[kb].dom() =~= pre.stores[kb].dom());
                            assert(self@.stores[kc].dom() =~= pre.stores[kc].dom());
                            assert(self@.stores[kd].dom() =~= pre.stores[kd].dom());
                            assert(self@.stores[ke].dom() =~= pre.stores[ke].dom());
                            assert(self@.stores[kf].dom() =~= pre.stores[kf].dom());
                        }
                    },
                    None => {
                        proof {
                            if before@.holds(ka, i) && before@.holds(kb, i) && before@.holds(kc, i) && before@.holds(kd, i) && before@.holds(ke, i) && before@.holds(kf, i) {
                                A::lemma_project_kind(before@.stores[ka][i]);
                                B::lemma_project_kind(before@.stores[kb][i]);
                                C::lemma_project_kind(before@.stores[kc][i]);
                                D::lemma_project_kind(before@.stores[kd][i]);
                                E::lemma_project_kind(before@.stores[ke][i]);
                                F::lemma_project_kind(before@.stores[kf][i]);
                            }
                        }
                    },
                }
            }
            i += 1;
        }
        proof {
            assert forall|j: usize| #[trigger] matched6::<A, B, C, D, E, F>(pre, j as int) implies self@.component::<A>(j).is_some() && self@.component::<B>(j).is_some() && self@.component::<C>(j).is_some() && self@.component::<D>(j).is_some() && self@.component::<E>(j).is_some() && self@.component::<F>(j).is_some() && f.ensures(
                ((
                    &pre.component::<A>(j).unwrap(),
                    &pre.component::<B>(j).unwrap(),
                    &pre.component::<C>(j).unwrap(),
                    &pre.component::<D>(j).unwrap(),
                    &pre.component::<E>(j).unwrap(),
                    &pre.component::<F>(j).unwrap(),
                ),),
                (
                    self@.component::<A>(j).unwrap(),
                    self@.component::<B>(j).unwrap(),
                    self@.component::<C>(j).unwrap(),
                    self@.component::<D>(j).unwrap(),
                    self@.component::<E>(j).unwrap(),
                    self@.component::<F>(j).unwrap(),
                ),
            ) by {
                assert(j < n);
            }
        }
    }
}

impl<
    A: Component,
    B: Component,
    C: Component,
    D: Component,
    E: Component,
    F: Component,
    G: Component,
    Func: Fn((&A, &B, &C, &D, &E, &F, &G)) -> (A, B, C, D, E, F, G),
> SystemRunner<(A, B, C, D, E, F, G), Func> for GameState {
    open spec fn run_requires(&self, f: Func) -> bool {
        &&& self.wf()
        &&& self@.registered(A::kind())
        &&& self@.registered(B::kind())
        &&& self@.registered(C::kind())
        &&& self@.registered(D::kind())
        &&& self@.registered(E::kind())
        &&& self@.registered(F::kind())
        &&& self@.registered(G::kind())
        &&& A::kind() != B::kind()
        &&& A::kind() != C::kind()
        &&& A::kind() != D::kind()
        &&& A::kind() != E::kind()
        &&& A::kind() != F::kind()
        &&& A::kind() != G::kind()
        &&& B::kind() != C::kind()
        &&& B::kind() != D::kind()
        &&& B::kind() != E::kind()
        &&& B::kind() != F::kind()
        &&& B::kind() != G::kind()
        &&& C::kind() != D::kind()
        &&& C::kind() != E::kind()
        &&& C::kind() != F::kind()
        &&& C::kind() != G::kind()
        &&& D::kind() != E::kind()
        &&& D::kind() != F::kind()
        &&& D::kind() != G::kind()
        &&& E::kind() != F::kind()
        &&& E::kind() != G::kind()
        &&& F::kind() != G::kind()
        &&& forall|i: usize| #[trigger]
            matched7::<A, B, C, D, E, F, G>(self@, i as int) ==> f.requires(((
                    &self@.component::<A>(i).unwrap(),
                    &self@.component::<B>(i).unwrap(),
                    &self@.component::<C>(i).unwrap(),
                    &self@.component::<D>(i).unwrap(),
                    &self@.component::<E>(i).unwrap(),
                    &self@.component::<F>(i).unwrap(),
                    &self@.component::<G>(i).unwrap(),
                ),))
    }

    open spec fn run_ensures(&self, post: &Self, f: Func) -> bool {
        post.wf() && ran7::<A, B, C, D, E, F, G, Func>(self@, post@, f)
    }

    fn run(&mut self, f: Func) {
        let ka = A::kind_of();
        let kb = B::kind_of();
        let kc = C::kind_of();
        let kd = D::kind_of();
        let ke = E::kind_of();
        let kf = F::kind_of();
        let kg = G::kind_of();
        let ghost pre = self@;
        let ghost pre_state = *self;
        let n = self.entities.len();
        let mut i: usize = 0;
        while i < n
            invariant
                self.wf(),
                pre_state.run_requires(f),
                pre == pre_state@,
                ka == A::kind(),
                kb == B::kind(),
                kc == C::kind(),
                kd == D::kind(),
                ke == E::kind(),
                kf == F::kind(),
                kg == G::kind(),
                n == pre.synced,
                i <= n,
                self@.records == pre.records,
                self@.synced == pre.synced,
                self@.bits == pre.bits,
                self@.stores.dom() == pre.stores.dom(),
                forall|kk: ComponentKind|
                    kk != ka && kk != kb && kk != kc && kk != kd && kk != ke && kk != kf && kk != kg && #[trigger] pre.stores.contains_key(kk)
                        ==> self@.stores[kk] == pre.stores[kk],
                self@.stores[ka].dom() == pre.stores[ka].dom(),
                self@.stores[kb].dom() == pre.stores[kb].dom(),
                self@.stores[kc].dom() == pre.stores[kc].dom(),
                self@.stores[kd].dom() == pre.stores[kd].dom(),
                self@.stores[ke].dom() == pre.stores[ke].dom(),
                self@.stores[kf].dom() == pre.stores[kf].dom(),
                self@.stores[kg].dom() == pre.stores[kg].dom(),
                forall|j: usize|
                    #[trigger] pre.holds(ka, j) && (j >= i || !matched7::<A, B, C, D, E, F, G>(pre, j as int))
                        ==> self@.stores[ka][j] == pre.stores[ka][j],
                forall|j: usize|
                    #[trigger] pre.holds(kb, j) && (j >= i || !matched7::<A, B, C, D, E, F, G>(pre, j as int))
                        ==> self@.stores[kb][j] == pre.stores[kb][j],
                forall|j: usize|
                    #[trigger] pre.holds(kc, j) && (j >= i || !matched7::<A, B, C, D, E, F, G>(pre, j as int))
                        ==> self@.stores[kc][j] == pre.stores[kc][j],
                forall|j: usize|
                    #[trigger] pre.holds(kd, j) && (j >= i || !matched7::<A, B, C, D, E, F, G>(pre, j as int))
                        ==> self@.stores[kd][j] == pre.stores[kd][j],
                forall|j: usize|
                    #[trigger] pre.holds(ke, j) && (j >= i || !matched7::<A, B, C, D, E, F, G>(pre, j as int))
                        ==> self@.stores[ke][j] == pre.stores[ke][j],
                forall|j: usize|
                    #[trigger] pre.holds(kf, j) && (j >= i || !matched7::<A, B, C, D, E, F, G>(pre, j as int))
                        ==> self@.stores[kf][j] == pre.stores[kf][j],
                forall|j: usize|
                    #[trigger] pre.holds(kg, j) && (j >= i || !matched7::<A, B, C, D, E, F, G>(pre, j as int))
                        ==> self@.stores[kg][j] == pre.stores[kg][j],
                forall|j: usize|
                    #[trigger] matched7::<A, B, C, D, E, F, G>(pre, j as int) && j < i ==> self@.component::<A>(j).is_some() && self@.component::<B>(j).is_some() && self@.component::<C>(j).is_some() && self@.component::<D>(j).is_some() && self@.component::<E>(j).is_some() && self@.component::<F>(j).is_some() && self@.component::<G>(j).is_some() && f.ensures(
                        ((
                            &pre.component::<A>(j).unwrap(),
                            &pre.component::<B>(j).unwrap(),
                            &pre.component::<C>(j).unwrap(),
                            &pre.component::<D>(j).unwrap(),
                            &pre.component::<E>(j).unwrap(),
                            &pre.component::<F>(j).unwrap(),
                            &pre.component::<G>(j).unwrap(),
                        ),),
                        (
                            self@.component::<A>(j).unwrap(),
                            self@.component::<B>(j).unwrap(),
                            self@.component::<C>(j).unwrap(),
                            self@.component::<D>(j).unwrap(),
                            self@.component::<E>(j).unwrap(),
                            self@.component::<F>(j).unwrap(),
                            self@.component::<G>(j).unwrap(),
                        ),
                    ),
            decreases n - i,
        {
            let e = self.entities[i];
            proof {
                assert(self@.records[i as int] == e);
                assert(e.index() == i);
                assert(self@.stores[ComponentKind::Deleted].dom() == pre.stores[ComponentKind::Deleted].dom());
            }
            if self.is_alive(e) {
                let ghost before = *self;
                let next = match (
                    self.get_storage(ka).get(i),
                    self.get_storage(kb).get(i),
                    self.get_storage(kc).get(i),
                    self.get_storage(kd).get(i),
                    self.get_storage(ke).get(i),
                    self.get_storage(kf).get(i),
                    self.get_storage(kg).get(i),
                ) {
                    (Some(va), Some(vb), Some(vc), Some(vd), Some(ve), Some(vf), Some(vg)) => match (A::peek(va), B::peek(vb), C::peek(vc), D::peek(vd), E::peek(ve), F::peek(vf), G::peek(vg)) {
                        (Some(xa), Some(xb), Some(xc), Some(xd), Some(xe), Some(xf), Some(xg)) => {
                            proof {
                                assert(pre.holds(ka, i) && pre.holds(kb, i) && pre.holds(kc, i) && pre.holds(kd, i) && pre.holds(ke, i) && pre.holds(kf, i) && pre.holds(kg, i));
                                assert(matched7::<A, B, C, D, E, F, G>(pre, i as int));
                            }
                            Some(f((xa, xb, xc, xd, xe, xf, xg)))
                        },
                        _ => None,
                    },
                    _ => None,
                };
                match next {
                    Some((na, nb, nc, nd, ne, nf, ng)) => {
                        let wa = na.wrap();
                        let wb = nb.wrap();
                        let wc = nc.wrap();
                        let wd = nd.wrap();
                        let we = ne.wrap();
                        let wf = nf.wrap();
                        let wg = ng.wrap();
                        proof {
                            A::lemma_into_value(na);
                            B::lemma_into_value(nb);
                            C::lemma_into_value(nc);
                            D::lemma_into_value(nd);
                            E::lemma_into_value(ne);
                            F::lemma_into_value(nf);
                            G::lemma_into_value(ng);
                        }
                        self.replace_value(ka, i, wa);
                        self.replace_value(kb, i, wb);
                        self.replace_value(kc, i, wc);
                        self.replace_value(kd, i, wd);
                        self.replace_value(ke, i, we);
                        self.replace_value(kf, i, wf);
                        self.replace_value(kg, i, wg);
                        proof {
                            assert(self@.stores.dom() =~= pre.stores.dom());
                            assert(self@.stores[ka].dom() =~= pre.stores[ka].dom());
                            assert(self@.stores[kb].dom() =~= pre.stores[kb].dom());
                            assert(self@.stores[kc].dom() =~= pre.stores[kc].dom());
                            assert(self@.stores[kd].dom() =~= pre.stores[kd].dom());
                            assert(self@.stores[ke].dom() =~= pre.stores[ke].dom());
                            assert(self@.stores[kf].dom() =~= pre.stores[kf].dom());
                            assert(self@.stores[kg].dom() =~= pre.stores[kg].dom());
                        }
                    },
                    None => {
                        proof {
                            if before@.holds(ka, i) && before@.holds(kb, i) && before@.holds(kc, i) && before@.holds(kd, i) && before@.holds(ke, i) && before@.holds(kf, i) && before@.holds(kg, i) {
                                A::lemma_project_kind(before@.stores[ka][i]);
                                B::lemma_project_kind(before@.stores[kb][i]);
                                C::lemma_project_kind(before@.stores[kc][i]);
                                D::lemma_project_kind(before@.stores[kd][i]);
                                E::lemma_project_kind(before@.stores[ke][i]);
                                F::lemma_project_kind(before@.stores[kf][i]);
                                G::lemma_project_kind(before@.stores[kg][i]);
                            }
                        }
                    },
                }
            }
            i += 1;
        }
        proof {
            assert forall|j: usize| #[trigger] matched7::<A, B, C, D, E, F, G>(pre, j as int) implies self@.component::<A>(j).is_some() && self@.component::<B>(j).is_some() && self@.component::<C>(j).is_some() && self@.component::<D>(j).is_some() && self@.component::<E>(j).is_some() && self@.component::<F>(j).is_some() && self@.component::<G>(j).is_some() && f.ensures(
                ((
                    &pre.component::<A>(j).unwrap(),
                    &pre.component::<B>(j).unwrap(),
                    &pre.component::<C>(j).unwrap(),
                    &pre.component::<D>(j).unwrap(),
                    &pre.component::<E>(j).unwrap(),
                    &pre.component::<F>(j).unwrap(),
                    &pre.component::<G>(j).unwrap(),
                ),),
                (
                    self@.component::<A>(j).unwrap(),
                    self@.component::<B>(j).unwrap(),
                    self@.component::<C>(j).unwrap(),
                    self@.component::<D>(j).unwrap(),
                    self@.component::<E>(j).unwrap(),
                    self@.component::<F>(j).unwrap(),
                    self@.component::<G>(j).unwrap(),
                ),
            ) by {
                assert(j < n);
            }
        }
    }
}

impl<
    A: Component,
    B: Component,
    C: Component,
    D: Component,
    E: Component,
    F: Component,
    G: Component,
    H: Component,
    Func: Fn((&A, &B, &C, &D, &E, &F, &G, &H)) -> (A, B, C, D, E, F, G, H),
> SystemRunner<(A, B, C, D, E, F, G, H), Func> for GameState {
    open spec fn run_requires(&self, f: Func) -> bool {
        &&& self.wf()
        &&& self@.registered(A::kind())
        &&& self@.registered(B::kind())
        &&& self@.registered(C::kind())
        &&& self@.registered(D::kind())
        &&& self@.registered(E::kind())
        &&& self@.registered(F::kind())
        &&& self@.registered(G::kind())
        &&& self@.registered(H::kind())
        &&& A::kind() != B::kind()
        &&& A::kind() != C::kind()
        &&& A::kind() != D::kind()
        &&& A::kind() != E::kind()
        &&& A::kind() != F::kind()
        &&& A::kind() != G::kind()
        &&& A::kind() != H::kind()
        &&& B::kind() != C::kind()
        &&& B::kind() != D::kind()
        &&& B::kind() != E::kind()
        &&& B::kind() != F::kind()
        &&& B::kind() != G::kind()
        &&& B::kind() != H::kind()
        &&& C::kind() != D::kind()
        &&& C::kind() != E::kind()
        &&& C::kind() != F::kind()
        &&& C::kind() != G::kind()
        &&& C::kind() != H::kind()
        &&& D::kind() != E::kind()
        &&& D::kind() != F::kind()
        &&& D::kind() != G::kind()
        &&& D::kind() != H::kind()
        &&& E::kind() != F::kind()
        &&& E::kind() != G::kind()
        &&& E::kind() != H::kind()
        &&& F::kind() != G::kind()
        &&& F::kind() != H::kind()
        &&& G::kind() != H::kind()
        &&& forall|i: usize| #[trigger]
            matched8::<A, B, C, D, E, F, G, H>(self@, i as int) ==> f.requires(((
                    &self@.component::<A>(i).unwrap(),
                    &self@.component::<B>(i).unwrap(),
                    &self@.component::<C>(i).unwrap(),
                    &self@.component::<D>(i).unwrap(),
                    &self@.component::<E>(i).unwrap(),
                    &self@.component::<F>(i).unwrap(),
                    &self@.component::<G>(i).unwrap(),
                    &self@.component::<H>(i).unwrap(),
                ),))
    }

    open spec fn run_ensures(&self, post: &Self, f: Func) -> bool {
        post.wf() && ran8::<A, B, C, D, E, F, G, H, Func>(self@, post@, f)
    }

    fn run(&mut self, f: Func) {
        let ka = A::kind_of();
        let kb = B::kind_of();
        let kc = C::kind_of();
        let kd = D::kind_of();
        let ke = E::kind_of();
        let kf = F::kind_of();
        let kg = G::kind_of();
        let kh = H::kind_of();
        let ghost pre = self@;
        let ghost pre_state = *self;
        let n = self.entities.len();
        let mut i: usize = 0;
        while i < n
            invariant
                self.wf(),
                pre_state.run_requires(f),
                pre == pre_state@,
                ka == A::kind(),
                kb == B::kind(),
                kc == C::kind(),
                kd == D::kind(),
                ke == E::kind(),
                kf == F::kind(),
                kg == G::kind(),
                kh == H::kind(),
                n == pre.synced,
                i <= n,
                self@.records == pre.records,
                self@.synced == pre.synced,
                self@.bits == pre.bits,
                self@.stores.dom() == pre.stores.dom(),
                forall|kk: ComponentKind|
                    kk != ka && kk != kb && kk != kc && kk != kd && kk != ke && kk != kf && kk != kg && kk != kh && #[trigger] pre.stores.contains_key(kk)
                        ==> self@.stores[kk] == pre.stores[kk],
                self@.stores[ka].dom() == pre.stores[ka].dom(),
                self@.stores[kb].dom() == pre.stores[kb].dom(),
                self@.stores[kc].dom() == pre.stores[kc].dom(),
                self@.stores[kd].dom() == pre.stores[kd].dom(),
                self@.stores[ke].dom() == pre.stores[ke].dom(),
                self@.stores[kf].dom() == pre.stores[kf].dom(),
                self@.stores[kg].dom() == pre.stores[kg].dom(),
                self@.stores[kh].dom() == pre.stores[kh].dom(),
                forall|j: usize|
                    #[trigger] pre.holds(ka, j) && (j >= i || !matched8::<A, B, C, D, E, F, G, H>(pre, j as int))
                        ==> self@.stores[ka][j] == pre.stores[ka][j],
                forall|j: usize|
                    #[trigger] pre.holds(kb, j) && (j >= i || !matched8::<A, B, C, D, E, F, G, H>(pre, j as int))
                        ==> self@.stores[kb][j] == pre.stores[kb][j],
                forall|j: usize|
                    #[trigger] pre.holds(kc, j) && (j >= i || !matched8::<A, B, C, D, E, F, G, H>(pre, j as int))
                        ==> self@.stores[kc][j] == pre.stores[kc][j],
                forall|j: usize|
                    #[trigger] pre.holds(kd, j) && (j >= i || !matched8::<A, B, C, D, E, F, G, H>(pre, j as int))
                        ==> self@.stores[kd][j] == pre.stores[kd][j],
                forall|j: usize|
                    #[trigger] pre.holds(ke, j) && (j >= i || !matched8::<A, B, C, D, E, F, G, H>(pre, j as int))
                        ==> self@.stores[ke][j] == pre.stores[ke][j],
                forall|j: usize|
                    #[trigger] pre.holds(kf, j) && (j >= i || !matched8::<A, B, C, D, E, F, G, H>(pre, j as int))
                        ==> self@.stores[kf][j] == pre.stores[kf][j],
                forall|j: usize|
                    #[trigger] pre.holds(kg, j) && (j >= i || !matched8::<A, B, C, D, E, F, G, H>(pre, j as int))
                        ==> self@.stores[kg][j] == pre.stores[kg][j],
                forall|j: usize|
                    #[trigger] pre.holds(kh, j) && (j >= i || !matched8::<A, B, C, D, E, F, G, H>(pre, j as int))
                        ==> self@.stores[kh][j] == pre.stores[kh][j],
                forall|j: usize|
                    #[trigger] matched8::<A, B, C, D, E, F, G, H>(pre, j as int) && j < i ==> self@.component::<A>(j).is_some() && self@.component::<B>(j).is_some() && self@.component::<C>(j).is_some() && self@.component::<D>(j).is_some() && self@.component::<E>(j).is_some() && self@.component::<F>(j).is_some() && self@.component::<G>(j).is_some() && self@.component::<H>(j).is_some() && f.ensures(
                        ((
                            &pre.component::<A>(j).unwrap(),
                            &pre.component::<B>(j).unwrap(),
                            &pre.component::<C>(j).unwrap(),
                            &pre.component::<D>(j).unwrap(),
                            &pre.component::<E>(j).unwrap(),
                            &pre.component::<F>(j).unwrap(),
                            &pre.component::<G>(j).unwrap(),
                            &pre.component::<H>(j).unwrap(),
                        ),),
                        (
                            self@.component::<A>(j).unwrap(),
                            self@.component::<B>(j).unwrap(),
                            self@.component::<C>(j).unwrap(),
                            self@.component::<D>(j).unwrap(),
                            self@.component::<E>(j).unwrap(),
                            self@.component::<F>(j).unwrap(),
                            self@.component::<G>(j).unwrap(),
                            self@.component::<H>(j).unwrap(),
                        ),
                    ),
            decreases n - i,
        {
            let e = self.entities[i];
            proof {
                assert(self@.records[i as int] == e);
                assert(e.index() == i);
                assert(self@.stores[ComponentKind::Deleted].dom() == pre.stores[ComponentKind::Deleted].dom());
            }
            if self.is_alive(e) {
                let ghost before = *self;
                let next = match (
                    self.get_storage(ka).get(i),
                    self.get_storage(kb).get(i),
                    self.get_storage(kc).get(i),
                    self.get_storage(kd).get(i),
                    self.get_storage(ke).get(i),
                    self.get_storage(kf).get(i),
                    self.get_storage(kg).get(i),
                    self.get_storage(kh).get(i),
                ) {
                    (Some(va), Some(vb), Some(vc), Some(vd), Some(ve), Some(vf), Some(vg), Some(vh)) => match (A::peek(va), B::peek(vb), C::peek(vc), D::peek(vd), E::peek(ve), F::peek(vf), G::peek(vg), H::peek(vh)) {
                        (Some(xa), Some(xb), Some(xc), Some(xd), Some(xe), Some(xf), Some(xg), Some(xh)) => {
                            proof {
                                assert(pre.holds(ka, i) && pre.holds(kb, i) && pre.holds(kc, i) && pre.holds(kd, i) && pre.holds(ke, i) && pre.holds(kf, i) && pre.holds(kg, i) && pre.holds(kh, i));
                                assert(matched8::<A, B, C, D, E, F, G, H>(pre, i as int));
                            }
                            Some(f((xa, xb, xc, xd, xe, xf, xg, xh)))
                        },
                        _ => None,
                    },
                    _ => None,
                };
                match next {
                    Some((na, nb, nc, nd, ne, nf, ng, nh)) => {
                        let wa = na.wrap();
                        let wb = nb.wrap();
                        let wc = nc.wrap();
                        let wd = nd.wrap();
                        let we = ne.wrap();
                        let wf = nf.wrap();
                        let wg = ng.wrap();
                        let wh = nh.wrap();
                        proof {
                            A::lemma_into_value(na);
                            B::lemma_into_value(nb);
                            C::lemma_into_value(nc);
                            D::lemma_into_value(nd);
                            E::lemma_into_value(ne);
                            F::lemma_into_value(nf);
                            G::lemma_into_value(ng);
                            H::lemma_into_value(nh);
                        }
                        self.replace_value(ka, i, wa);
                        self.replace_value(kb, i, wb);
                        self.replace_value(kc, i, wc);
                        self.replace_value(kd, i, wd);
                        self.replace_value(ke, i, we);
                        self.replace_value(kf, i, wf);
                        self.replace_value(kg, i, wg);
                        self.replace_value(kh, i, wh);
                        proof {
                            assert(self@.stores.dom() =~= pre.stores.dom());
                            assert(self@.stores[ka].dom() =~= pre.stores[ka].dom());
                            assert(self@.stores[kb].dom() =~= pre.stores[kb].dom());
                            assert(self@.stores[kc].dom() =~= pre.stores[kc].dom());
                            assert(self@.stores[kd].dom() =~= pre.stores[kd].dom());
                            assert(self@.stores[ke].dom() =~= pre.stores[ke].dom());
                            assert(self@.stores[kf].dom() =~= pre.stores[kf].dom());
                            assert(self@.stores[kg].dom() =~= pre.stores[kg].dom());
                            assert(self@.stores[kh].dom() =~= pre.stores[kh].dom());
                        }
                    },
                    None => {
                        proof {
                            if before@.holds(ka, i) && before@.holds(kb, i) && before@.holds(kc, i) && before@.holds(kd, i) && before@.holds(ke, i) && before@.holds(kf, i) && before@.holds(kg, i) && before@.holds(kh, i) {
                                A::lemma_project_kind(before@.stores[ka][i]);
                                B::lemma_project_kind(before@.stores[kb][i]);
                                C::lemma_project_kind(before@.stores[kc][i]);
                                D::lemma_project_kind(before@.stores[kd][i]);
                                E::lemma_project_kind(before@.stores[ke][i]);
                                F::lemma_project_kind(before@.stores[kf][i]);
                                G::lemma_project_kind(before@.stores[kg][i]);
                                H::lemma_project_kind(before@.stores[kh][i]);
                            }
                        }
                    },
                }
            }
            i += 1;
        }
        proof {
            assert forall|j: usize| #[trigger] matched8::<A, B, C, D, E, F, G, H>(pre, j as int) implies self@.component::<A>(j).is_some() && self@.component::<B>(j).is_some() && self@.component::<C>(j).is_some() && self@.component::<D>(j).is_some() && self@.component::<E>(j).is_some() && self@.component::<F>(j).is_some() && self@.component::<G>(j).is_some() && self@.component::<H>(j).is_some() && f.ensures(
                ((
                    &pre.component::<A>(j).unwrap(),
                    &pre.component::<B>(j).unwrap(),
                    &pre.component::<C>(j).unwrap(),
                    &pre.component::<D>(j).unwrap(),
                    &pre.component::<E>(j).unwrap(),
                    &pre.component::<F>(j).unwrap(),
                    &pre.component::<G>(j).unwrap(),
                    &pre.component::<H>(j).unwrap(),
                ),),
                (
                    self@.component::<A>(j).unwrap(),
                    self@.component::<B>(j).unwrap(),
                    self@.component::<C>(j).unwrap(),
                    self@.component::<D>(j).unwrap(),
                    self@.component::<E>(j).unwrap(),
                    self@.component::<F>(j).unwrap(),
                    self@.component::<G>(j).unwrap(),
                    self@.component::<H>(j).unwrap(),
                ),
            ) by {
                assert(j < n);
            }
        }
    }
}

proof fn lemma_count_filled_zero(s: Seq<Option<i128>>, n: nat)
    requires
        n <= s.len(),
        forall|i: int| 0 <= i < s.len() ==> s[i] is None,
    ensures
        count_filled(s.subrange(0, n as int)) == 0,
    decreases n,
{
    if n > 0 {
        assert(s.subrange(0, n as int).drop_last() =~= s.subrange(0, n - 1));
        lemma_count_filled_zero(s, (n - 1) as nat);
    }
}

/// For every registered `C`, `has_flag` reports a `C` exactly when `clone`
/// returns one.
pub proof fn lemma_flag_iff_clone<C: Component>(w: WorldView, i: usize)
    requires
        w.wf(),
        w.registered(C::kind()),
    ensures
        w.has::<C>(i) == w.value::<C>(i).is_some(),
{
    if w.holds(C::kind(), i) {
        C::lemma_project_kind(w.stores[C::kind()][i]);
    }
}

/// Inserting `c` for a living entity and reading it back gives `c`. (Inserting
/// the `Deleted` marker kills the entity, after which nothing is read back.)
pub proof fn lemma_insert_then_clone<C: Component>(w: WorldView, i: usize, c: C)
    requires
        w.wf(),
        w.registered(C::kind()),
        i < w.records.len(),
        w.alive(i),
        C::kind() != ComponentKind::Deleted,
    ensures
        w.inserted(C::kind(), i, c.into_value()).value::<C>(i) == Some(c),
{
    C::lemma_into_value(c);
}

/// Deleting a component twice in a row leaves the state that one deletion
/// leaves.
pub proof fn lemma_delete_idempotent(w: WorldView, k: ComponentKind, i: usize)
    requires
        w.registered(k),
        i < w.records.len(),
    ensures
        w.deleted(k, i).deleted(k, i) == w.deleted(k, i),
{
    let once = w.deleted(k, i);
    let s = w.signature(i);
    let b = w.bits[k];
    assert((s & !b) & !b == s & !b) by (bit_vector);
    assert(once.records[i as int].with_signature(once.signature(i) & !b) == once.records[i as int]);
    assert(once.deleted(k, i).records =~= once.records);
    assert(once.deleted(k, i).stores =~= once.stores) by {
        assert(once.stores[k].remove(i) =~= once.stores[k]);
    }
}

/// A soft-deleted entity is skipped by every scan: `update_all` and `run` leave
/// its entries as they were, and `read_all` does not visit it.
pub proof fn lemma_deleted_entity_skipped<C: Component, D: Component>(w: WorldView, i: usize)
    requires
        w.wf(),
        !w.alive(i),
    ensures
        !w.visible::<C>(i as int),
        !w.scan::<C>().contains(i),
        !matched2::<C, D>(w, i as int),
{
    lemma_scan_upto::<C>(w, w.synced);
    if w.scan::<C>().contains(i) {
        let j = choose|j: int| 0 <= j < w.scan::<C>().len() && w.scan::<C>()[j] == i;
        assert(w.visible::<C>(w.scan::<C>()[j] as int));
    }
}

/// Updating every `C` leaves the `C` of a soft-deleted entity as it was.
pub proof fn lemma_update_all_skips_deleted<C: Component, F: Fn(Entity, &C) -> C>(
    pre: WorldView,
    post: WorldView,
    f: F,
    i: usize,
)
    requires
        pre.wf(),
        !pre.alive(i),
        pre.holds(C::kind(), i),
        all_updated::<C, F>(pre, post, f),
    ensures
        post.stores[C::kind()][i] == pre.stores[C::kind()][i],
{
}

/// A query over `A` and `B` applies `f` once to the values of each visible
/// entity that holds both, and leaves an entity that holds only one of them
/// as it was.
pub proof fn lemma_run_and_query<A: Component, B: Component, F: Fn((&A, &B)) -> (A, B)>(
    pre: WorldView,
    post: WorldView,
    f: F,
    i: usize,
)
    requires
        pre.wf(),
        ran2::<A, B, F>(pre, post, f),
        i < pre.synced,
        pre.alive(i),
    ensures
        pre.holds(A::kind(), i) && pre.holds(B::kind(), i) ==> f.ensures(
            ((&pre.component::<A>(i).unwrap(), &pre.component::<B>(i).unwrap()),),
            (post.component::<A>(i).unwrap(), post.component::<B>(i).unwrap()),
        ),
        pre.holds(A::kind(), i) && !pre.holds(B::kind(), i) ==> post.stores[A::kind()][i]
            == pre.stores[A::kind()][i],
        !pre.holds(A::kind(), i) && pre.holds(B::kind(), i) ==> post.stores[B::kind()][i]
            == pre.stores[B::kind()][i],
{
    assert(pre.holds(A::kind(), i) && pre.holds(B::kind(), i) ==> matched2::<A, B>(pre, i as int));
}

/// Entities created since the last `update_entities` are not visited by a
/// scan; once it has run, a scan visits each of them that holds the scanned
/// kind, exactly once.
pub proof fn lemma_creation_visibility<C: Component>(w: WorldView, i: usize)
    requires
        w.wf(),
        w.synced <= i < w.records.len(),
    ensures
        !w.scan::<C>().contains(i),
        w.has::<C>(i) ==> (WorldView { synced: w.records.len(), ..w }).scan::<C>().contains(i),
        forall|a: int, b: int|
            0 <= a < b < (WorldView { synced: w.records.len(), ..w }).scan::<C>().len() ==> (
            WorldView { synced: w.records.len(), ..w }).scan::<C>()[a] != (WorldView {
                synced: w.records.len(),
                ..w
            }).scan::<C>()[b],
{
    let post = WorldView { synced: w.records.len(), ..w };
    lemma_scan_upto::<C>(w, w.synced);
    lemma_scan_upto::<C>(post, post.synced);
    if w.scan::<C>().contains(i) {
        let j = choose|j: int| 0 <= j < w.scan::<C>().len() && w.scan::<C>()[j] == i;
        assert(w.visible::<C>(w.scan::<C>()[j] as int));
    }
    if w.has::<C>(i) {
        assert(post.visible::<C>(i as int));
    }
}

/// An entity's signature has the bit of a registered kind exactly when the
/// entity holds a component of that kind: inserting sets the bit, deleting
/// clears it, and nothing else touches it.
pub proof fn lemma_signature_exact(w: &GameState, i: usize, k: ComponentKind)
    requires
        w.wf(),
        i < w@.records.len(),
        w@.registered(k),
    ensures
        ((w@.signature(i) & w@.bits[k]) != 0) == w@.holds(k, i),
{
    w.lemma_wf();
}

} // verus!
