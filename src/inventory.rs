//! Items: inventories that hold item entities, and the effects that items
//! grant while held or when consumed.
use crate::common::{Name, Position};
use crate::stats::{self, fits_i32, stat_kinds, stats_of, total, upsert, Stat, StatEntry};
use crate::world::{
    changed_only_at, copy_items, kept_except, lemma_changed_only_step, lemma_kept_after_update,
    lemma_kept_except, lemma_kept_from_changed, Component, ComponentKind, ComponentValue, Deleted, Entity,
    GameState, StorageKind, WorldView,
};
use vstd::prelude::*;

verus! {

/// The item entities an entity carries, in the order they were added.
#[derive(Clone, Debug)]
pub struct Inventory {
    pub items: Vec<Entity>,
}

impl Inventory {
    pub fn new() -> (r: Inventory)
        ensures
            r@ == Seq::<Entity>::empty(),
    {
        Inventory { items: Vec::new() }
    }
}

/// An item that is used up: its buffs apply to the consumer.
#[derive(Clone, Debug)]
pub struct Consumable {
    buffs: Vec<(Stat, i32)>,
}

impl Consumable {
    pub fn new(buffs: Vec<(Stat, i32)>) -> (r: Consumable)
        ensures
            r@ == buffs@,
    {
        Consumable { buffs }
    }
}

/// An item whose buffs apply to its holder while it is in an inventory.
#[derive(Clone, Debug)]
pub struct ActiveEffect {
    buffs: Vec<(Stat, i32)>,
}

impl ActiveEffect {
    pub fn new(buffs: Vec<(Stat, i32)>) -> (r: ActiveEffect)
        ensures
            r@ == buffs@,
    {
        ActiveEffect { buffs }
    }
}

/// An item of which an inventory holds a count rather than copies.
#[derive(Clone, Copy, PartialEq, Eq, Structural, Debug)]
pub struct Stackable {
    quantity: u32,
}

impl Stackable {
    pub fn new(quantity: u32) -> (r: Stackable)
        ensures
            r.quantity() == quantity,
    {
        Stackable { quantity }
    }

    pub closed spec fn quantity(self) -> u32 {
        self.quantity
    }

    pub fn count(&self) -> (r: u32)
        ensures
            r == self.quantity(),
    {
        self.quantity
    }
}

/// The items a living entity carries, if it has an inventory.
pub open spec fn inventory_of(w: WorldView, i: usize) -> Option<Seq<Entity>> {
    match w.value::<Inventory>(i) {
        Some(inv) => Some(inv@),
        None => None,
    }
}

/// The name of a living entity, if it has one.
pub open spec fn name_of(w: WorldView, i: usize) -> Option<&'static str> {
    match w.value::<Name>(i) {
        Some(n) => Some(n.0),
        None => None,
    }
}

/// The buffs a living item grants while held, if it has any.
pub open spec fn effect_of(w: WorldView, i: usize) -> Option<Seq<(Stat, i32)>> {
    match w.value::<ActiveEffect>(i) {
        Some(a) => Some(a@),
        None => None,
    }
}

/// The buffs a living item grants when consumed, if it is consumable.
pub open spec fn consumable_of(w: WorldView, i: usize) -> Option<Seq<(Stat, i32)>> {
    match w.value::<Consumable>(i) {
        Some(c) => Some(c@),
        None => None,
    }
}

/// The count of a living stackable item.
pub open spec fn quantity_of(w: WorldView, i: usize) -> Option<u32> {
    match w.value::<Stackable>(i) {
        Some(s) => Some(s.quantity()),
        None => None,
    }
}

/// Stat entries after granting each of `buffs` in turn under `name`.
pub open spec fn apply_buffs(es: Seq<StatEntry>, buffs: Seq<(Stat, i32)>, name: &'static str) -> Seq<StatEntry>
    decreases buffs.len(),
{
    if buffs.len() == 0 {
        es
    } else {
        let (stat, amount) = buffs.last();
        upsert(apply_buffs(es, buffs.drop_last(), name), stat, Some(name), amount)
    }
}

/// Whether the vitality total stays within `i32` after each vitality buff
/// of `buffs` is granted in turn.
pub open spec fn buffs_fit(es: Seq<StatEntry>, buffs: Seq<(Stat, i32)>, name: &'static str) -> bool
    decreases buffs.len(),
{
    buffs.len() == 0 || (buffs_fit(es, buffs.drop_last(), name) && (buffs.last().0 == Stat::VITALITY
        ==> fits_i32(total(apply_buffs(es, buffs, name), buffs.last().0))))
}

/// Whether the items' entries are entities of `w`.
pub open spec fn known_items(w: WorldView, items: Seq<Entity>) -> bool {
    forall|j: int| 0 <= j < items.len() ==> (#[trigger] items[j]).index() < w.records.len()
}

/// Whether `j` is the first item whose signature is `sig`.
pub open spec fn is_first_stack(w: WorldView, items: Seq<Entity>, sig: i128, j: int) -> bool {
    &&& 0 <= j < items.len()
    &&& w.signature(items[j].index()) == sig
    &&& forall|k: int| 0 <= k < j ==> w.signature((#[trigger] items[k]).index()) != sig
}

/// The first item whose signature is `sig`, if any.
pub open spec fn stack_for(w: WorldView, items: Seq<Entity>, sig: i128) -> Option<int> {
    if exists|j: int| is_first_stack(w, items, sig, j) {
        Some(choose|j: int| is_first_stack(w, items, sig, j))
    } else {
        None
    }
}

/// A count grown by one, if there is a count.
pub open spec fn incremented(q: Option<u32>) -> Option<u32> {
    match q {
        Some(n) => Some((n + 1) as u32),
        None => None,
    }
}

/// Whether the stack counts of the items can each grow by one.
pub open spec fn stacks_have_room(w: WorldView, items: Seq<Entity>) -> bool {
    forall|j: int|
        0 <= j < items.len() && #[trigger] quantity_of(w, items[j].index()).is_some()
            ==> quantity_of(w, items[j].index()).unwrap() < u32::MAX
}

/// Registers the item components.
pub fn init(w: &mut GameState)
    requires
        old(w).wf(),
    ensures
        final(w).wf(),
        final(w)@.registered(ComponentKind::Inventory),
        final(w)@.registered(ComponentKind::Consumable),
        final(w)@.registered(ComponentKind::ActiveEffect),
        final(w)@.registered(ComponentKind::Stackable),
        final(w)@.records == old(w)@.records,
        final(w)@.synced == old(w)@.synced,
        forall|k: ComponentKind|
            #![trigger old(w)@.registered(k)]
            #![trigger final(w)@.stores[k]]
            old(w)@.registered(k) ==> final(w)@.registered(k) && final(w)@.stores[k] == old(
                w,
            )@.stores[k],
        forall|k: ComponentKind|
            #![trigger final(w)@.registered(k)]
            #![trigger final(w)@.stores[k]]
            !old(w)@.registered(k) ==> final(w)@.registered(k) == (k == ComponentKind::Inventory || k == ComponentKind::Consumable || k == ComponentKind::ActiveEffect || k == ComponentKind::Stackable)
                && (final(w)@.registered(k) ==> final(w)@.stores[k] == Map::<usize, ComponentValue>::empty()),
{
    w.register_component::<Inventory>();
    w.register_component::<Consumable>();
    w.register_component::<ActiveEffect>();
    w.register_component::<Stackable>();
}

/// Whether every kind the item functions touch is registered.
pub open spec fn ready(w: WorldView) -> bool {
    &&& stats::ready(w)
    &&& w.registered(ComponentKind::Inventory)
    &&& w.registered(ComponentKind::Consumable)
    &&& w.registered(ComponentKind::ActiveEffect)
    &&& w.registered(ComponentKind::Stackable)
    &&& w.registered(ComponentKind::Name)
    &&& w.registered(ComponentKind::Position)
}

/// The state once a picked-up item has left the ground: its position is
/// removed if it has one.
pub open spec fn cleared(w: WorldView, item: usize) -> WorldView {
    if w.has::<Position>(item) {
        w.deleted(ComponentKind::Position, item)
    } else {
        w
    }
}

/// The stack a stackable item joins: the first carried item whose signature
/// is the item's.
pub open spec fn stack_target(w: WorldView, items: Seq<Entity>, item: usize) -> Option<int> {
    if w.has::<Stackable>(item) {
        stack_for(cleared(w, item), items, cleared(w, item).signature(item))
    } else {
        None
    }
}

/// The carried items after picking `item` up: unchanged when it joins a
/// stack, else with `item` appended.
pub open spec fn added_items(w: WorldView, items: Seq<Entity>, item: Entity) -> Seq<Entity> {
    if stack_target(w, items, item.index()).is_some() {
        items
    } else {
        items.push(item)
    }
}

/// The kinds that picking an item up may change.
pub open spec fn pickup_kinds() -> Set<ComponentKind> {
    set![
        ComponentKind::Position,
        ComponentKind::Stackable,
        ComponentKind::Inventory,
        ComponentKind::Stats,
        ComponentKind::Health,
    ]
}

/// The index of the carried item whose count grows when `entity` picks up
/// `item`, if the item joins a stack.
pub open spec fn stack_index(w: WorldView, entity: usize, item: usize) -> Option<usize> {
    match inventory_of(w, entity) {
        Some(items) => match stack_target(w, items, item) {
            Some(j) => Some(items[j].index()),
            None => None,
        },
        None => None,
    }
}

/// `post` differs from `pre` only where `entity` picking up `item` may change
/// it: the item's position and registry entry, the count of the stack it
/// joins, and the inventory, stats and health of `entity`.
pub open spec fn pickup_frame(pre: WorldView, post: WorldView, entity: usize, item: usize) -> bool {
    &&& kept_except(pre, post, pickup_kinds())
    &&& forall|j: int|
        0 <= j < pre.records.len() && j != item && j != entity ==> #[trigger] post.records[j]
            == pre.records[j]
    &&& post.stores[ComponentKind::Position] == if pre.has::<Position>(item) {
        pre.stores[ComponentKind::Position].remove(item)
    } else {
        pre.stores[ComponentKind::Position]
    }
    &&& post.stores[ComponentKind::Inventory].remove(entity) == pre.stores[ComponentKind::Inventory].remove(
        entity,
    )
    &&& post.stores[ComponentKind::Stats].remove(entity) == pre.stores[ComponentKind::Stats].remove(entity)
    &&& post.stores[ComponentKind::Health].remove(entity) == pre.stores[ComponentKind::Health].remove(entity)
    &&& match stack_index(pre, entity, item) {
        Some(k) => post.stores[ComponentKind::Stackable].remove(k) == pre.stores[ComponentKind::Stackable].remove(
            k,
        ),
        None => post.stores[ComponentKind::Stackable] == pre.stores[ComponentKind::Stackable],
    }
}

/// Puts `item` into the inventory of `entity`; nothing happens unless
/// `entity` is alive and has an inventory. The item's position is removed; a
/// stackable item joins the first carried item of the same signature, whose
/// count grows by one, and any other item is appended; the item's active
/// effect is then granted to `entity` under the item's name.
pub fn add_item(w: &mut GameState, entity: Entity, item: Entity)
    requires
        old(w).wf(),
        ready(old(w)@),
        entity.index() < old(w)@.records.len(),
        item.index() < old(w)@.records.len(),
        inventory_of(old(w)@, entity.index()).is_some() ==> known_items(
            old(w)@,
            inventory_of(old(w)@, entity.index()).unwrap(),
        ) && stacks_have_room(old(w)@, inventory_of(old(w)@, entity.index()).unwrap()),
        inventory_of(old(w)@, entity.index()).is_some() && effect_of(old(w)@, item.index()).is_some()
            ==> name_of(old(w)@, item.index()).is_some(),
        inventory_of(old(w)@, entity.index()).is_some() && effect_of(old(w)@, item.index()).is_some()
            && stats_of(old(w)@, entity.index()).is_some() ==> buffs_fit(
            stats_of(old(w)@, entity.index()).unwrap(),
            effect_of(old(w)@, item.index()).unwrap(),
            name_of(old(w)@, item.index()).unwrap(),
        ),
    ensures
        final(w).wf(),
        kept_except(old(w)@, final(w)@, pickup_kinds()),
        inventory_of(old(w)@, entity.index()).is_some() ==> pickup_frame(
            old(w)@,
            final(w)@,
            entity.index(),
            item.index(),
        ),
        inventory_of(old(w)@, entity.index()).is_none() ==> final(w)@ == old(w)@,
        inventory_of(old(w)@, entity.index()).is_some() ==> inventory_of(final(w)@, entity.index())
            == Some(added_items(old(w)@, inventory_of(old(w)@, entity.index()).unwrap(), item)),
        inventory_of(old(w)@, entity.index()).is_some() && old(w)@.has::<Position>(item.index())
            ==> !final(w)@.holds(ComponentKind::Position, item.index()),
        inventory_of(old(w)@, entity.index()).is_some() && stack_target(
            old(w)@,
            inventory_of(old(w)@, entity.index()).unwrap(),
            item.index(),
        ).is_some() ==> ({
            let stack = inventory_of(old(w)@, entity.index()).unwrap()[stack_target(
                old(w)@,
                inventory_of(old(w)@, entity.index()).unwrap(),
                item.index(),
            ).unwrap()].index();
            quantity_of(final(w)@, stack) == incremented(quantity_of(old(w)@, stack))
        }),
        inventory_of(old(w)@, entity.index()).is_some() ==> stats_of(final(w)@, entity.index()) == match (
            stats_of(old(w)@, entity.index()),
            effect_of(old(w)@, item.index()),
        ) {
            (Some(es), Some(buffs)) => Some(apply_buffs(es, buffs, name_of(old(w)@, item.index()).unwrap())),
            (es, _) => es,
        },
{
    let ghost w0 = w@;
    let inv = match w.clone::<Inventory>(entity) {
        Some(inv) => inv,
        None => {
            return ;
        },
    };
    proof {
        w.lemma_wf();
    }
    if w.has_flag::<Position>(item) {
        w.delete::<Position>(item);
    }
    let ghost w1 = w@;
    proof {
        w.lemma_wf();
        assert(w1 == cleared(w0, item.index()));
        if w0.has::<Position>(item.index()) {
            lemma_changed_only_step(w0, ComponentKind::Position, item.index(), Deleted.into_value());
            lemma_kept_from_changed(w0, w1, item.index(), set![ComponentKind::Position]);
        }
        assert(kept_except(w0, w1, set![ComponentKind::Position]));
        assert(forall|j: int| 0 <= j < w0.records.len() && j != item.index() ==> w1.records[j] == w0.records[j]);
        assert(w1.stores[ComponentKind::Position] == if w0.has::<Position>(item.index()) {
            w0.stores[ComponentKind::Position].remove(item.index())
        } else {
            w0.stores[ComponentKind::Position]
        });
        assert(w1.stores[ComponentKind::Deleted] == w0.stores[ComponentKind::Deleted]);
        assert(w1.stores[ComponentKind::Stackable] == w0.stores[ComponentKind::Stackable]);
        assert(known_items(w1, inv@));
    }
    let mut items = inv.items;
    if w.has_flag::<Stackable>(item) {
        let sig = w.type_of(item);
        match find_stack(w, &items, sig) {
            Some(j) => {
                let e = items[j];
                proof {
                    assert(inv@[j as int] == e);
                    assert(quantity_of(w0, e.index()).is_some() ==> quantity_of(w0, e.index()).unwrap()
                        < u32::MAX);
                }
                let f = |s: &Stackable| -> (r: Stackable)
                    requires
                        s.quantity < u32::MAX,
                    ensures
                        r.quantity == s.quantity + 1,
                    { Stackable { quantity: s.quantity + 1 } };
                w.update(e, f);
                proof {
                    lemma_kept_after_update::<Stackable>(w1, w@, e.index());
                    assert(stack_target(w0, inv@, item.index()) == Some(j as int));
                    assert(w1.value::<Stackable>(e.index()) == w0.value::<Stackable>(e.index()));
                    assert(quantity_of(w@, e.index()) == incremented(quantity_of(w0, e.index())));
                    assert(stack_index(w0, entity.index(), item.index()) == Some(e.index()));
                    assert(w@.records == w1.records);
                    assert(w@.stores[ComponentKind::Stackable].remove(e.index()) =~= w1.stores[ComponentKind::Stackable].remove(
                        e.index(),
                    ));
                }
            },
            None => {
                items.push(item);
                proof {
                    assert(stack_index(w0, entity.index(), item.index()).is_none());
                }
            },
        }
    } else {
        items.push(item);
        proof {
            assert(stack_index(w0, entity.index(), item.index()).is_none());
        }
    }
    let ghost w2 = w@;
    proof {
        w.lemma_wf();
        assert(kept_except(w1, w2, set![ComponentKind::Stackable]));
        assert(items@ == added_items(w0, inv@, item));
        assert(w2.stores[ComponentKind::Inventory] == w0.stores[ComponentKind::Inventory]);
        assert(w2.stores[ComponentKind::Deleted] == w0.stores[ComponentKind::Deleted]);
    }
    let g = |old_inv: &Inventory| -> (r: Inventory)
        ensures
            r@ == items@,
        { Inventory { items: copy_items(&items) } };
    w.update(entity, g);
    let ghost w3 = w@;
    proof {
        w.lemma_wf();
        lemma_kept_after_update::<Inventory>(w2, w3, entity.index());
        lemma_kept_except(w0, w1, w2, set![ComponentKind::Position], set![ComponentKind::Stackable], pickup_kinds());
        lemma_kept_except(w0, w2, w3, pickup_kinds(), set![ComponentKind::Inventory], pickup_kinds());
        assert(inventory_of(w3, entity.index()) == Some(items@));
        assert(w3.stores[ComponentKind::Deleted] == w0.stores[ComponentKind::Deleted]);
        assert(w3.stores[ComponentKind::Stats] == w0.stores[ComponentKind::Stats]);
        assert(w3.stores[ComponentKind::ActiveEffect] == w0.stores[ComponentKind::ActiveEffect]);
        assert(w3.stores[ComponentKind::Name] == w0.stores[ComponentKind::Name]);
        assert(stats_of(w3, entity.index()) == stats_of(w0, entity.index()));
        assert(w3.stores[ComponentKind::Stackable] == w2.stores[ComponentKind::Stackable]);
        assert(w3.records == w2.records);
        assert(w3.stores[ComponentKind::Inventory].remove(entity.index()) =~= w2.stores[ComponentKind::Inventory].remove(
            entity.index(),
        ));
        assert(w3.stores[ComponentKind::Position] == w1.stores[ComponentKind::Position]);
    }
    if let Some(a) = w.clone::<ActiveEffect>(item) {
        let name = w.clone::<Name>(item).unwrap();
        grant_buffs(w, entity, &a.buffs, name.0);
        proof {
            w.lemma_wf();
            lemma_kept_from_changed(w3, w@, entity.index(), stat_kinds());
            lemma_kept_except(w0, w3, w@, pickup_kinds(), stat_kinds(), pickup_kinds());
            assert(!stat_kinds().contains(ComponentKind::Inventory));
            assert(!stat_kinds().contains(ComponentKind::Deleted));
            assert(!stat_kinds().contains(ComponentKind::Stackable));
            assert(!stat_kinds().contains(ComponentKind::Position));
        }
    } else {
        proof {
            crate::world::lemma_changed_only_refl(w3, entity.index(), stat_kinds());
        }
    }
    proof {
        let w4 = w@;
        assert(changed_only_at(w3, w4, entity.index(), stat_kinds()));
        assert(stat_kinds().contains(ComponentKind::Stats) && stat_kinds().contains(ComponentKind::Health));
        assert(!stat_kinds().contains(ComponentKind::Inventory));
        assert(!stat_kinds().contains(ComponentKind::Stackable));
        assert(!stat_kinds().contains(ComponentKind::Position));
        assert(w4.stores[ComponentKind::Stats].remove(entity.index()) == w3.stores[ComponentKind::Stats].remove(
            entity.index(),
        ));
        assert(w4.stores[ComponentKind::Health].remove(entity.index()) == w3.stores[ComponentKind::Health].remove(
            entity.index(),
        ));
        assert(w3.stores[ComponentKind::Stats] == w0.stores[ComponentKind::Stats]);
        assert(w3.stores[ComponentKind::Health] == w0.stores[ComponentKind::Health]);
        assert(w4.stores[ComponentKind::Inventory] == w3.stores[ComponentKind::Inventory]);
        assert(w2.stores[ComponentKind::Inventory] == w0.stores[ComponentKind::Inventory]);
        assert(w4.stores[ComponentKind::Stackable] == w3.stores[ComponentKind::Stackable]);
        assert(w4.stores[ComponentKind::Position] == w3.stores[ComponentKind::Position]);
        assert forall|j: int|
            0 <= j < w0.records.len() && j != item.index() && j != entity.index() implies #[trigger] w4.records[j]
                == w0.records[j] by {
            assert(w4.records[j] == w3.records[j]);
            assert(w1.records[j] == w0.records[j]);
        }
        match stack_index(w0, entity.index(), item.index()) {
            Some(k) => {
                assert(w2.stores[ComponentKind::Stackable].remove(k) == w1.stores[ComponentKind::Stackable].remove(k));
                assert(w1.stores[ComponentKind::Stackable] == w0.stores[ComponentKind::Stackable]);
            },
            None => {
                assert(w2 == w1);
            },
        }
        assert(pickup_frame(w0, w4, entity.index(), item.index()));
    }
}

/// How many times `item` is carried.
pub open spec fn occurrences(items: Seq<Entity>, item: Entity) -> nat
    decreases items.len(),
{
    if items.len() == 0 {
        0
    } else {
        occurrences(items.drop_last(), item) + if items.last() == item {
            1nat
        } else {
            0nat
        }
    }
}

/// The carried items other than `item`, in order.
pub open spec fn without(items: Seq<Entity>, item: Entity) -> Seq<Entity>
    decreases items.len(),
{
    if items.len() == 0 {
        items
    } else {
        let rest = without(items.drop_last(), item);
        if items.last() == item {
            rest
        } else {
            rest.push(items.last())
        }
    }
}

proof fn lemma_without_absent(items: Seq<Entity>, item: Entity)
    requires
        occurrences(items, item) == 0,
    ensures
        without(items, item) == items,
    decreases items.len(),
{
    if items.len() > 0 {
        lemma_without_absent(items.drop_last(), item);
        assert(items.drop_last().push(items.last()) =~= items);
    }
}

/// The stat entries of `entity` after `item` leaves its inventory: the
/// item's active effect is lifted when the item was carried.
pub open spec fn stats_after_removal(w: WorldView, entity: usize, item: Entity) -> Option<Seq<StatEntry>> {
    match (stats_of(w, entity), inventory_of(w, entity)) {
        (Some(es), Some(items)) => if occurrences(items, item) > 0 && effect_of(w, item.index()).is_some() {
            Some(stats::strip(es, name_of(w, item.index()).unwrap()@))
        } else {
            Some(es)
        },
        (es, _) => es,
    }
}

/// The count of a stackable item once `n` of it have left.
pub open spec fn decreased(q: Option<u32>, n: nat) -> Option<u32> {
    match q {
        Some(k) => Some((k - n) as u32),
        None => None,
    }
}

/// What `remove_item` asks: the item's count covers every carried copy, and
/// a carried item with an active effect has a name.
pub open spec fn removable(w: WorldView, entity: usize, item: Entity) -> bool {
    inventory_of(w, entity).is_some() ==> {
        let n = occurrences(inventory_of(w, entity).unwrap(), item);
        &&& quantity_of(w, item.index()).is_some() ==> n <= quantity_of(w, item.index()).unwrap()
        &&& n > 0 && effect_of(w, item.index()).is_some() ==> name_of(w, item.index()).is_some()
    }
}

/// The kinds that dropping an item may change.
pub open spec fn drop_kinds() -> Set<ComponentKind> {
    set![ComponentKind::Stackable, ComponentKind::Inventory, ComponentKind::Stats, ComponentKind::Position]
}

/// The kinds that consuming an item may change.
pub open spec fn consume_kinds() -> Set<ComponentKind> {
    set![
        ComponentKind::Stackable,
        ComponentKind::Inventory,
        ComponentKind::Stats,
        ComponentKind::Health,
        ComponentKind::Position,
        ComponentKind::Deleted,
    ]
}

/// Takes `item` out of the inventory of `entity`; nothing happens unless
/// `entity` is alive and has an inventory. A stackable item's count drops by
/// one per carried copy, any other item is removed; if it was carried, its
/// active effect is lifted. The item is then placed at the position of
/// `entity`, if it has one.
pub fn remove_item(w: &mut GameState, entity: Entity, item: Entity)
    requires
        old(w).wf(),
        ready(old(w)@),
        entity.index() < old(w)@.records.len(),
        item.index() < old(w)@.records.len(),
        removable(old(w)@, entity.index(), item),
    ensures
        final(w).wf(),
        final(w)@.records.len() == old(w)@.records.len(),
        final(w)@.stores.dom() == old(w)@.stores.dom(),
        kept_except(old(w)@, final(w)@, drop_kinds()),
        inventory_of(old(w)@, entity.index()).is_none() ==> final(w)@ == old(w)@,
        inventory_of(old(w)@, entity.index()).is_some() ==> inventory_of(final(w)@, entity.index())
            == Some(
            if old(w)@.has::<Stackable>(item.index()) {
                inventory_of(old(w)@, entity.index()).unwrap()
            } else {
                without(inventory_of(old(w)@, entity.index()).unwrap(), item)
            },
        ),
        inventory_of(old(w)@, entity.index()).is_some() && item.index() != entity.index()
            ==> quantity_of(final(w)@, item.index()) == decreased(
            quantity_of(old(w)@, item.index()),
            occurrences(inventory_of(old(w)@, entity.index()).unwrap(), item),
        ),
        inventory_of(old(w)@, entity.index()).is_some() ==> stats_of(final(w)@, entity.index())
            == stats_after_removal(old(w)@, entity.index(), item),
        inventory_of(old(w)@, entity.index()).is_some() && old(w)@.value::<Position>(
            entity.index(),
        ).is_some() ==> final(w)@.component::<Position>(item.index()) == old(
            w,
        )@.value::<Position>(entity.index()),
{
    let ghost w0 = w@;
    let inv = match w.clone::<Inventory>(entity) {
        Some(inv) => inv,
        None => {
            return ;
        },
    };
    let stackable = w.has_flag::<Stackable>(item);
    let mut kept: Vec<Entity> = Vec::new();
    let mut hits: usize = 0;
    let mut i: usize = 0;
    while i < inv.items.len()
        invariant
            i <= inv.items.len(),
            hits == occurrences(inv@.subrange(0, i as int), item),
            hits <= i,
            kept@ == if stackable {
                inv@.subrange(0, i as int)
            } else {
                without(inv@.subrange(0, i as int), item)
            },
        decreases inv.items.len() - i,
    {
        let x = inv.items[i];
        proof {
            assert(inv@.subrange(0, i + 1).drop_last() =~= inv@.subrange(0, i as int));
            assert(inv@.subrange(0, i + 1).last() == x);
        }
        if x == item {
            hits += 1;
            if stackable {
                kept.push(x);
            }
        } else {
            kept.push(x);
        }
        i += 1;
    }
    proof {
        assert(inv@.subrange(0, inv@.len() as int) =~= inv@);
        w.lemma_wf();
        if hits == 0 {
            lemma_without_absent(inv@, item);
        }
    }
    let ghost w1 = w@;
    if hits > 0 {
        if stackable {
            let f = |s: &Stackable| -> (r: Stackable)
                requires
                    s.quantity >= hits,
                ensures
                    r.quantity == s.quantity - hits,
                { Stackable { quantity: s.quantity - hits as u32 } };
            w.update(item, f);
            proof {
                lemma_kept_after_update::<Stackable>(w1, w@, item.index());
                lemma_kept_except(w1, w1, w@, set![], set![ComponentKind::Stackable], drop_kinds());
            }
        } else {
            let g = |old_inv: &Inventory| -> (r: Inventory)
                ensures
                    r@ == kept@,
                { Inventory { items: copy_items(&kept) } };
            w.update(entity, g);
            proof {
                lemma_kept_after_update::<Inventory>(w1, w@, entity.index());
                lemma_kept_except(w1, w1, w@, set![], set![ComponentKind::Inventory], drop_kinds());
            }
        }
        let ghost w2 = w@;
        proof {
            w.lemma_wf();
            assert(w2.stores[ComponentKind::Deleted] == w0.stores[ComponentKind::Deleted]);
            assert(w2.stores[ComponentKind::Stats] == w0.stores[ComponentKind::Stats]);
            assert(w2.stores[ComponentKind::ActiveEffect] == w0.stores[ComponentKind::ActiveEffect]);
            assert(w2.stores[ComponentKind::Name] == w0.stores[ComponentKind::Name]);
            assert(w2.stores[ComponentKind::Position] == w0.stores[ComponentKind::Position]);
        }
        if let Some(_effect) = w.clone::<ActiveEffect>(item) {
            let name = w.clone::<Name>(item).unwrap();
            stats::unbuff(w, entity, name.0);
            proof {
                w.lemma_wf();
                lemma_kept_from_changed(w2, w@, entity.index(), set![ComponentKind::Stats]);
                lemma_kept_except(w1, w2, w@, drop_kinds(), set![ComponentKind::Stats], drop_kinds());
                assert(!set![ComponentKind::Stats].contains(ComponentKind::Inventory));
                assert(!set![ComponentKind::Stats].contains(ComponentKind::Deleted));
                assert(!set![ComponentKind::Stats].contains(ComponentKind::Stackable));
                assert(!set![ComponentKind::Stats].contains(ComponentKind::Position));
            }
        }
    }
    let ghost w3 = w@;
    proof {
        w.lemma_wf();
        assert(kept_except(w0, w3, drop_kinds()));
        assert(w3.stores[ComponentKind::Deleted] == w0.stores[ComponentKind::Deleted]);
        assert(w3.stores[ComponentKind::Position] == w0.stores[ComponentKind::Position]);
    }
    if let Some(pos) = w.clone::<Position>(entity) {
        w.insert(item, pos);
        proof {
            w.lemma_wf();
            lemma_changed_only_step(w3, ComponentKind::Position, item.index(), pos.into_value());
            lemma_kept_from_changed(w3, w@, item.index(), set![ComponentKind::Position]);
            lemma_kept_except(w0, w3, w@, drop_kinds(), set![ComponentKind::Position], drop_kinds());
            assert(w@.stores[ComponentKind::Deleted] == w0.stores[ComponentKind::Deleted]);
        }
    }
}

/// Uses up a consumable `item` for `entity`; nothing happens unless the item
/// is alive and consumable. The item leaves the inventory of `entity` (see
/// `remove_item`), its buffs are granted to `entity` under the item's name,
/// and the item is soft-deleted.
pub fn consume(w: &mut GameState, entity: Entity, item: Entity)
    requires
        old(w).wf(),
        ready(old(w)@),
        entity.index() < old(w)@.records.len(),
        item.index() < old(w)@.records.len(),
        consumable_of(old(w)@, item.index()).is_some() ==> name_of(old(w)@, item.index()).is_some()
            && removable(old(w)@, entity.index(), item),
        consumable_of(old(w)@, item.index()).is_some() && stats_after_removal(
            old(w)@,
            entity.index(),
            item,
        ).is_some() ==> buffs_fit(
            stats_after_removal(old(w)@, entity.index(), item).unwrap(),
            consumable_of(old(w)@, item.index()).unwrap(),
            name_of(old(w)@, item.index()).unwrap(),
        ),
    ensures
        final(w).wf(),
        kept_except(old(w)@, final(w)@, consume_kinds()),
        consumable_of(old(w)@, item.index()).is_none() ==> final(w)@ == old(w)@,
        consumable_of(old(w)@, item.index()).is_some() ==> !final(w)@.alive(item.index()),
        consumable_of(old(w)@, item.index()).is_some() && item.index() != entity.index()
            && inventory_of(old(w)@, entity.index()).is_some() ==> inventory_of(final(w)@, entity.index())
            == Some(
            if old(w)@.has::<Stackable>(item.index()) {
                inventory_of(old(w)@, entity.index()).unwrap()
            } else {
                without(inventory_of(old(w)@, entity.index()).unwrap(), item)
            },
        ),
        consumable_of(old(w)@, item.index()).is_some() && item.index() != entity.index() ==> stats_of(
            final(w)@,
            entity.index(),
        ) == match stats_after_removal(old(w)@, entity.index(), item) {
            Some(es) => Some(
                apply_buffs(
                    es,
                    consumable_of(old(w)@, item.index()).unwrap(),
                    name_of(old(w)@, item.index()).unwrap(),
                ),
            ),
            None => None::<Seq<StatEntry>>,
        },
{
    let ghost w0 = w@;
    let c = match w.clone::<Consumable>(item) {
        Some(c) => c,
        None => {
            return ;
        },
    };
    let name = w.clone::<Name>(item).unwrap();
    remove_item(w, entity, item);
    let ghost w1 = w@;
    proof {
        w.lemma_wf();
        if inventory_of(w0, entity.index()).is_none() {
            assert(stats_of(w1, entity.index()) == stats_after_removal(w0, entity.index(), item));
        }
    }
    grant_buffs(w, entity, &c.buffs, name.0);
    let ghost w2 = w@;
    proof {
        w.lemma_wf();
        assert(!stat_kinds().contains(ComponentKind::Deleted));
        lemma_kept_from_changed(w1, w2, entity.index(), stat_kinds());
        lemma_kept_except(w0, w1, w2, drop_kinds(), stat_kinds(), consume_kinds());
    }
    w.delete_entity(item);
    proof {
        lemma_changed_only_step(w2, ComponentKind::Deleted, item.index(), Deleted.into_value());
        lemma_kept_from_changed(w2, w@, item.index(), set![ComponentKind::Deleted]);
        lemma_kept_except(w0, w2, w@, consume_kinds(), set![ComponentKind::Deleted], consume_kinds());
        if item.index() != entity.index() {
            assert(w@.stores[ComponentKind::Stats] == w2.stores[ComponentKind::Stats]);
            assert(w@.stores[ComponentKind::Deleted] =~= w2.stores[ComponentKind::Deleted].insert(item.index(), crate::world::Deleted.into_value()));
            assert(w@.alive(entity.index()) == w2.alive(entity.index()));
            assert(!stat_kinds().contains(ComponentKind::Inventory));
            assert(w@.stores[ComponentKind::Inventory] == w2.stores[ComponentKind::Inventory]);
            assert(w2.stores[ComponentKind::Inventory] == w1.stores[ComponentKind::Inventory]);
            assert(w2.alive(entity.index()) == w1.alive(entity.index()));
        }
    }
}

/// The first item whose signature is `sig`.
fn find_stack(w: &GameState, items: &Vec<Entity>, sig: i128) -> (r: Option<usize>)
    requires
        w.wf(),
        known_items(w@, items@),
    ensures
        r == match stack_for(w@, items@, sig) {
            Some(j) => Some(j as usize),
            None => None::<usize>,
        },
        r.is_some() ==> is_first_stack(w@, items@, sig, r.unwrap() as int),
{
    let mut j: usize = 0;
    while j < items.len()
        invariant
            w.wf(),
            known_items(w@, items@),
            j <= items.len(),
            forall|k: int| 0 <= k < j ==> w@.signature((#[trigger] items@[k]).index()) != sig,
        decreases items.len() - j,
    {
        let e = items[j];
        proof {
            assert(items@[j as int] == e);
        }
        if w.type_of(e) == sig {
            proof {
                assert(is_first_stack(w@, items@, sig, j as int));
                let c = choose|c: int| is_first_stack(w@, items@, sig, c);
                if c < j {
                    assert(w@.signature(items@[c].index()) != sig);
                } else if j < c {
                    assert(w@.signature(items@[j as int].index()) != sig);
                }
            }
            return Some(j);
        }
        j += 1;
    }
    proof {
        if exists|c: int| is_first_stack(w@, items@, sig, c) {
            let c = choose|c: int| is_first_stack(w@, items@, sig, c);
            assert(w@.signature(items@[c].index()) != sig);
        }
    }
    None
}

/// Grants each of `buffs` in turn to `entity` under `name`.
fn grant_buffs(w: &mut GameState, entity: Entity, buffs: &Vec<(Stat, i32)>, name: &'static str)
    requires
        old(w).wf(),
        stats::ready(old(w)@),
        entity.index() < old(w)@.records.len(),
        stats_of(old(w)@, entity.index()).is_some() ==> buffs_fit(
            stats_of(old(w)@, entity.index()).unwrap(),
            buffs@,
            name,
        ),
    ensures
        final(w).wf(),
        changed_only_at(old(w)@, final(w)@, entity.index(), stat_kinds()),
        stats_of(final(w)@, entity.index()) == match stats_of(old(w)@, entity.index()) {
            Some(es) => Some(apply_buffs(es, buffs@, name)),
            None => None::<Seq<StatEntry>>,
        },
{
    let ghost w0 = w@;
    let mut j: usize = 0;
    while j < buffs.len()
        invariant
            w.wf(),
            stats::ready(w@),
            w0.records.len() == w@.records.len(),
            entity.index() < w@.records.len(),
            j <= buffs.len(),
            changed_only_at(w0, w@, entity.index(), stat_kinds()),
            stats_of(w0, entity.index()).is_some() ==> buffs_fit(
                stats_of(w0, entity.index()).unwrap(),
                buffs@,
                name,
            ),
            stats_of(w@, entity.index()) == match stats_of(w0, entity.index()) {
                Some(es) => Some(apply_buffs(es, buffs@.subrange(0, j as int), name)),
                None => None::<Seq<StatEntry>>,
            },
        decreases buffs.len() - j,
    {
        let (stat, amount) = buffs[j];
        proof {
            let sub = buffs@.subrange(0, j + 1);
            assert(sub.drop_last() =~= buffs@.subrange(0, j as int));
            if stats_of(w0, entity.index()).is_some() {
                lemma_buffs_fit_prefix(stats_of(w0, entity.index()).unwrap(), buffs@, name, j + 1);
            }
        }
        let ghost before = w@;
        stats::buff(w, entity, stat, name, amount);
        proof {
            crate::world::lemma_changed_only_trans(
                w0,
                before,
                w@,
                entity.index(),
                stat_kinds(),
                stat_kinds(),
                stat_kinds(),
            );
        }
        j += 1;
    }
    proof {
        assert(buffs@.subrange(0, buffs@.len() as int) =~= buffs@);
    }
}

proof fn lemma_buffs_fit_prefix(es: Seq<StatEntry>, buffs: Seq<(Stat, i32)>, name: &'static str, n: int)
    requires
        buffs_fit(es, buffs, name),
        0 < n <= buffs.len(),
    ensures
        buffs[n - 1].0 == Stat::VITALITY ==> fits_i32(
            total(apply_buffs(es, buffs.subrange(0, n), name), buffs[n - 1].0),
        ),
    decreases buffs.len(),
{
    if n == buffs.len() {
        assert(buffs.subrange(0, n) =~= buffs);
    } else {
        assert(buffs.drop_last().subrange(0, n) =~= buffs.subrange(0, n));
        lemma_buffs_fit_prefix(es, buffs.drop_last(), name, n);
    }
}

impl View for Inventory {
    type V = Seq<Entity>;

    open spec fn view(&self) -> Seq<Entity> {
        self.items@
    }
}

impl View for Consumable {
    type V = Seq<(Stat, i32)>;

    closed spec fn view(&self) -> Seq<(Stat, i32)> {
        self.buffs@
    }
}

impl View for ActiveEffect {
    type V = Seq<(Stat, i32)>;

    closed spec fn view(&self) -> Seq<(Stat, i32)> {
        self.buffs@
    }
}

impl Component for Inventory {
    open spec fn kind() -> ComponentKind {
        ComponentKind::Inventory
    }

    fn kind_of() -> (k: ComponentKind) {
        ComponentKind::Inventory
    }

    fn storage_kind() -> StorageKind {
        StorageKind::Sparse
    }

    open spec fn project(v: ComponentValue) -> Option<Self> {
        match v {
            ComponentValue::Inventory(c) => Some(c),
            _ => None,
        }
    }

    open spec fn into_value(self) -> ComponentValue {
        ComponentValue::Inventory(self)
    }

    fn wrap(self) -> (v: ComponentValue) {
        ComponentValue::Inventory(self)
    }

    fn peek(v: &ComponentValue) -> (r: Option<&Self>) {
        match v {
            ComponentValue::Inventory(c) => Some(c),
            _ => None,
        }
    }

    fn duplicate(&self) -> (r: Self) {
        Inventory { items: copy_items(&self.items) }
    }

    proof fn lemma_project_kind(v: ComponentValue) {
    }

    proof fn lemma_into_value(c: Self) {
    }
}

impl Component for Consumable {
    open spec fn kind() -> ComponentKind {
        ComponentKind::Consumable
    }

    fn kind_of() -> (k: ComponentKind) {
        ComponentKind::Consumable
    }

    fn storage_kind() -> StorageKind {
        StorageKind::Dense
    }

    open spec fn project(v: ComponentValue) -> Option<Self> {
        match v {
            ComponentValue::Consumable(c) => Some(c),
            _ => None,
        }
    }

    open spec fn into_value(self) -> ComponentValue {
        ComponentValue::Consumable(self)
    }

    fn wrap(self) -> (v: ComponentValue) {
        ComponentValue::Consumable(self)
    }

    fn peek(v: &ComponentValue) -> (r: Option<&Self>) {
        match v {
            ComponentValue::Consumable(c) => Some(c),
            _ => None,
        }
    }

    fn duplicate(&self) -> (r: Self) {
        Consumable { buffs: copy_items(&self.buffs) }
    }

    proof fn lemma_project_kind(v: ComponentValue) {
    }

    proof fn lemma_into_value(c: Self) {
    }
}

impl Component for ActiveEffect {
    open spec fn kind() -> ComponentKind {
        ComponentKind::ActiveEffect
    }

    fn kind_of() -> (k: ComponentKind) {
        ComponentKind::ActiveEffect
    }

    fn storage_kind() -> StorageKind {
        StorageKind::Dense
    }

    open spec fn project(v: ComponentValue) -> Option<Self> {
        match v {
            ComponentValue::ActiveEffect(c) => Some(c),
            _ => None,
        }
    }

    open spec fn into_value(self) -> ComponentValue {
        ComponentValue::ActiveEffect(self)
    }

    fn wrap(self) -> (v: ComponentValue) {
        ComponentValue::ActiveEffect(self)
    }

    fn peek(v: &ComponentValue) -> (r: Option<&Self>) {
        match v {
            ComponentValue::ActiveEffect(c) => Some(c),
            _ => None,
        }
    }

    fn duplicate(&self) -> (r: Self) {
        ActiveEffect { buffs: copy_items(&self.buffs) }
    }

    proof fn lemma_project_kind(v: ComponentValue) {
    }

    proof fn lemma_into_value(c: Self) {
    }
}

impl View for Stackable {
    type V = Stackable;

    open spec fn view(&self) -> Stackable {
        *self
    }
}

impl Component for Stackable {
    open spec fn kind() -> ComponentKind {
        ComponentKind::Stackable
    }

    fn kind_of() -> (k: ComponentKind) {
        ComponentKind::Stackable
    }

    fn storage_kind() -> StorageKind {
        StorageKind::Dense
    }

    open spec fn project(v: ComponentValue) -> Option<Self> {
        match v {
            ComponentValue::Stackable(c) => Some(c),
            _ => None,
        }
    }

    open spec fn into_value(self) -> ComponentValue {
        ComponentValue::Stackable(self)
    }

    fn wrap(self) -> (v: ComponentValue) {
        ComponentValue::Stackable(self)
    }

    fn peek(v: &ComponentValue) -> (r: Option<&Self>) {
        match v {
            ComponentValue::Stackable(c) => Some(c),
            _ => None,
        }
    }

    fn duplicate(&self) -> (r: Self) {
        *self
    }

    proof fn lemma_project_kind(v: ComponentValue) {
    }

    proof fn lemma_into_value(c: Self) {
    }
}

} // verus!
