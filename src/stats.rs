//! Character stats: a base value per stat plus named buffs, and the current
//! health that vitality bounds.
use crate::world::{
    changed_only_at, copy_items, lemma_changed_only_refl, lemma_changed_only_step, lemma_changed_only_trans,
    Component, ComponentKind, ComponentValue, Entity, GameState, StorageKind, WorldView,
};
use vstd::prelude::*;

pub use self::Stat::CONSTITUTION;
pub use self::Stat::DEXTERITY;
pub use self::Stat::INTELLIGENCE;
pub use self::Stat::STRENGTH;
pub use self::Stat::VITALITY;
pub use self::Stat::WISDOM;

verus! {

/// The stats an entity can carry; each bounds a realtime value.
#[allow(non_camel_case_types)]
#[derive(Clone, Copy, PartialEq, Eq, Structural, Debug, Hash)]
pub enum Stat {
    /// Bounds health.
    VITALITY,
    /// Bounds attack.
    STRENGTH,
    /// Bounds defence.
    CONSTITUTION,
    /// Bounds special attack.
    INTELLIGENCE,
    /// Bounds special defence.
    WISDOM,
    /// Bounds agility.
    DEXTERITY,
}

/// Current health; its maximum is the vitality total.
#[derive(Clone, Copy, PartialEq, Eq, Structural, Debug)]
pub struct Health(pub i32);

/// One contribution to a stat: the base value (`source == None`) or the buff
/// granted under a name.
#[derive(Clone, Copy, Debug)]
pub struct StatEntry {
    pub stat: Stat,
    pub source: Option<&'static str>,
    pub value: i32,
}

/// The stat contributions an entity carries.
#[derive(Debug)]
pub struct Stats(Vec<StatEntry>);

/// What a source names: `None` for the base value, else the buff's name.
pub open spec fn source_view(s: Option<&'static str>) -> Option<Seq<char>> {
    match s {
        Some(n) => Some(n@),
        None => None,
    }
}

/// Whether `e` is the contribution of `source` to `stat`.
pub open spec fn is_entry(e: StatEntry, stat: Stat, source: Option<Seq<char>>) -> bool {
    e.stat == stat && source_view(e.source) == source
}

pub open spec fn has_entry(es: Seq<StatEntry>, stat: Stat, source: Option<Seq<char>>) -> bool {
    exists|j: int| 0 <= j < es.len() && is_entry(#[trigger] es[j], stat, source)
}

/// Whether `j` is the first position holding the contribution of `source`
/// to `stat`.
pub open spec fn is_first_entry(es: Seq<StatEntry>, stat: Stat, source: Option<Seq<char>>, j: int) -> bool {
    &&& 0 <= j < es.len()
    &&& is_entry(es[j], stat, source)
    &&& forall|k: int| 0 <= k < j ==> !is_entry(#[trigger] es[k], stat, source)
}

/// The first position holding the contribution of `source` to `stat`.
pub open spec fn first_entry(es: Seq<StatEntry>, stat: Stat, source: Option<Seq<char>>) -> int {
    choose|j: int| is_first_entry(es, stat, source, j)
}

/// The contribution of `source` to `stat`, if there is one.
pub open spec fn lookup(es: Seq<StatEntry>, stat: Stat, source: Option<Seq<char>>) -> Option<i32> {
    if has_entry(es, stat, source) {
        Some(es[first_entry(es, stat, source)].value)
    } else {
        None
    }
}

/// `es` with the contribution of `source` to `stat` set to `value`: the
/// first such entry is overwritten, or a new one is appended.
pub open spec fn upsert(es: Seq<StatEntry>, stat: Stat, source: Option<&'static str>, value: i32) -> Seq<StatEntry> {
    if has_entry(es, stat, source_view(source)) {
        let j = first_entry(es, stat, source_view(source));
        es.update(j, StatEntry { value, ..es[j] })
    } else {
        es.push(StatEntry { stat, source, value })
    }
}

/// `es` without the buffs granted under `name`.
pub open spec fn strip(es: Seq<StatEntry>, name: Seq<char>) -> Seq<StatEntry>
    decreases es.len(),
{
    if es.len() == 0 {
        es
    } else {
        let rest = strip(es.drop_last(), name);
        if source_view(es.last().source) != Some(name) {
            rest.push(es.last())
        } else {
            rest
        }
    }
}

/// The sum of all contributions to `stat`: its base plus its buffs.
pub open spec fn total(es: Seq<StatEntry>, stat: Stat) -> int
    decreases es.len(),
{
    if es.len() == 0 {
        0
    } else {
        total(es.drop_last(), stat) + if es.last().stat == stat {
            es.last().value as int
        } else {
            0
        }
    }
}

pub open spec fn fits_i32(x: int) -> bool {
    i32::MIN <= x <= i32::MAX
}

proof fn lemma_first_entry(es: Seq<StatEntry>, stat: Stat, source: Option<Seq<char>>, j: int)
    requires
        is_first_entry(es, stat, source, j),
    ensures
        has_entry(es, stat, source),
        first_entry(es, stat, source) == j,
{
    let k = first_entry(es, stat, source);
    assert(is_first_entry(es, stat, source, k));
    if k < j {
        assert(!is_entry(es[k], stat, source));
    } else if j < k {
        assert(!is_entry(es[j], stat, source));
    }
}

/// Whether no two entries are contributions of the same source to the same
/// stat.
pub open spec fn keys_unique(es: Seq<StatEntry>) -> bool {
    forall|a: int, b: int|
        0 <= a < b < es.len() ==> !is_entry(#[trigger] es[b], es[a].stat, source_view(#[trigger] es[a].source))
}

/// The buff granted under `name` to `stat`, or zero.
pub open spec fn buff_value(es: Seq<StatEntry>, stat: Stat, name: Seq<char>) -> int {
    match lookup(es, stat, Some(name)) {
        Some(v) => v as int,
        None => 0,
    }
}

/// The sum of the buffs granted under `name` to `stat`.
pub open spec fn named_total(es: Seq<StatEntry>, stat: Stat, name: Seq<char>) -> int
    decreases es.len(),
{
    if es.len() == 0 {
        0
    } else {
        named_total(es.drop_last(), stat, name) + if is_entry(es.last(), stat, Some(name)) {
            es.last().value as int
        } else {
            0
        }
    }
}

/// A sequence with some contribution has a first one.
proof fn lemma_first_exists(es: Seq<StatEntry>, stat: Stat, source: Option<Seq<char>>)
    requires
        has_entry(es, stat, source),
    ensures
        is_first_entry(es, stat, source, first_entry(es, stat, source)),
    decreases es.len(),
{
    let dl = es.drop_last();
    if has_entry(dl, stat, source) {
        lemma_first_exists(dl, stat, source);
        let j = first_entry(dl, stat, source);
        assert(is_first_entry(es, stat, source, j)) by {
            assert forall|k: int| 0 <= k < j implies !is_entry(#[trigger] es[k], stat, source) by {
                assert(dl[k] == es[k]);
            }
            assert(dl[j] == es[j]);
        }
        lemma_first_entry(es, stat, source, j);
    } else {
        let j = choose|j: int| 0 <= j < es.len() && is_entry(#[trigger] es[j], stat, source);
        if j < dl.len() {
            assert(dl[j] == es[j]);
        }
        assert(is_first_entry(es, stat, source, es.len() - 1)) by {
            assert forall|k: int| 0 <= k < es.len() - 1 implies !is_entry(#[trigger] es[k], stat, source) by {
                assert(dl[k] == es[k]);
            }
        }
        lemma_first_entry(es, stat, source, es.len() - 1);
    }
}

/// Looking up after appending finds the old contribution first.
proof fn lemma_lookup_push(x: Seq<StatEntry>, e: StatEntry, stat: Stat, source: Option<Seq<char>>)
    ensures
        lookup(x.push(e), stat, source) == if has_entry(x, stat, source) {
            lookup(x, stat, source)
        } else if is_entry(e, stat, source) {
            Some(e.value)
        } else {
            None
        },
{
    let y = x.push(e);
    if has_entry(x, stat, source) {
        lemma_first_exists(x, stat, source);
        let j = first_entry(x, stat, source);
        assert(is_first_entry(y, stat, source, j)) by {
            assert forall|k: int| 0 <= k < j implies !is_entry(#[trigger] y[k], stat, source) by {
                assert(y[k] == x[k]);
            }
            assert(y[j] == x[j]);
        }
        lemma_first_entry(y, stat, source, j);
    } else if is_entry(e, stat, source) {
        assert(is_first_entry(y, stat, source, x.len() as int)) by {
            assert forall|k: int| 0 <= k < x.len() implies !is_entry(#[trigger] y[k], stat, source) by {
                assert(y[k] == x[k]);
            }
        }
        lemma_first_entry(y, stat, source, x.len() as int);
    } else {
        assert(!has_entry(y, stat, source)) by {
            assert forall|k: int| 0 <= k < y.len() implies !is_entry(#[trigger] y[k], stat, source) by {
                if k < x.len() {
                    assert(y[k] == x[k]);
                }
            }
        }
    }
}

/// Setting a contribution keeps the keys unique.
proof fn lemma_upsert_unique(es: Seq<StatEntry>, stat: Stat, source: Option<&'static str>, value: i32)
    requires
        keys_unique(es),
    ensures
        keys_unique(upsert(es, stat, source, value)),
{
    let r = upsert(es, stat, source, value);
    if has_entry(es, stat, source_view(source)) {
        lemma_first_exists(es, stat, source_view(source));
        let j = first_entry(es, stat, source_view(source));
        assert forall|a: int, b: int| 0 <= a < b < r.len() implies !is_entry(
            #[trigger] r[b],
            r[a].stat,
            source_view(#[trigger] r[a].source),
        ) by {
            assert(r[a].stat == es[a].stat && r[a].source == es[a].source);
            assert(r[b].stat == es[b].stat && r[b].source == es[b].source);
            assert(!is_entry(es[b], es[a].stat, source_view(es[a].source)));
        }
    } else {
        assert forall|a: int, b: int| 0 <= a < b < r.len() implies !is_entry(
            #[trigger] r[b],
            r[a].stat,
            source_view(#[trigger] r[a].source),
        ) by {
            if b == es.len() {
                assert(r[a] == es[a]);
                if is_entry(r[b], r[a].stat, source_view(r[a].source)) {
                    assert(is_entry(es[a], stat, source_view(source)));
                }
            } else {
                assert(r[a] == es[a] && r[b] == es[b]);
            }
        }
    }
}

/// Every entry kept by `strip` is an entry of the original sequence, and
/// none of them is a buff named `name`.
proof fn lemma_strip_from(es: Seq<StatEntry>, name: Seq<char>)
    ensures
        forall|k: int| 0 <= k < strip(es, name).len() ==> exists|m: int| 0 <= m < es.len() && #[trigger] strip(es, name)[k] == es[m],
        forall|k: int| 0 <= k < strip(es, name).len() ==> source_view(#[trigger] strip(es, name)[k].source) != Some(name),
    decreases es.len(),
{
    if es.len() > 0 {
        let dl = es.drop_last();
        lemma_strip_from(dl, name);
        let r = strip(dl, name);
        assert forall|k: int| 0 <= k < strip(es, name).len() implies exists|m: int| 0 <= m < es.len() && #[trigger] strip(es, name)[k] == es[m] by {
            if k < r.len() {
                let m = choose|m: int| 0 <= m < dl.len() && r[k] == dl[m];
                assert(strip(es, name)[k] == es[m]);
            } else {
                assert(strip(es, name)[k] == es[es.len() - 1]);
            }
        }
        assert forall|k: int| 0 <= k < strip(es, name).len() implies source_view(#[trigger] strip(es, name)[k].source) != Some(name) by {
            if k < r.len() {
                assert(strip(es, name)[k] == r[k]);
            }
        }
    }
}

/// Dropping a buff keeps the keys unique.
proof fn lemma_strip_unique(es: Seq<StatEntry>, name: Seq<char>)
    requires
        keys_unique(es),
    ensures
        keys_unique(strip(es, name)),
    decreases es.len(),
{
    if es.len() > 0 {
        let dl = es.drop_last();
        assert(keys_unique(dl)) by {
            assert forall|a: int, b: int| 0 <= a < b < dl.len() implies !is_entry(
                #[trigger] dl[b],
                dl[a].stat,
                source_view(#[trigger] dl[a].source),
            ) by {
                assert(dl[a] == es[a] && dl[b] == es[b]);
            }
        }
        lemma_strip_unique(dl, name);
        lemma_strip_from(dl, name);
        let r = strip(dl, name);
        let t = strip(es, name);
        if t.len() > r.len() {
            assert forall|a: int, b: int| 0 <= a < b < t.len() implies !is_entry(
                #[trigger] t[b],
                t[a].stat,
                source_view(#[trigger] t[a].source),
            ) by {
                if b == r.len() {
                    let m = choose|m: int| 0 <= m < dl.len() && r[a] == dl[m];
                    assert(t[a] == es[m]);
                    assert(t[b] == es[es.len() - 1]);
                    assert(!is_entry(es[es.len() - 1], es[m].stat, source_view(es[m].source)));
                } else {
                    assert(t[a] == r[a] && t[b] == r[b]);
                }
            }
        }
    }
}

/// Dropping a buff lowers each total by the buffs of that name.
proof fn lemma_strip_total(es: Seq<StatEntry>, name: Seq<char>, stat: Stat)
    ensures
        total(strip(es, name), stat) == total(es, stat) - named_total(es, stat, name),
    decreases es.len(),
{
    if es.len() > 0 {
        let dl = es.drop_last();
        lemma_strip_total(dl, name, stat);
        let r = strip(dl, name);
        assert(r.push(es.last()).drop_last() =~= r);
    }
}

/// With unique keys, the buffs of one name on one stat are that one buff.
proof fn lemma_named_total(es: Seq<StatEntry>, name: Seq<char>, stat: Stat)
    requires
        keys_unique(es),
    ensures
        named_total(es, stat, name) == buff_value(es, stat, name),
    decreases es.len(),
{
    if es.len() > 0 {
        let dl = es.drop_last();
        assert(keys_unique(dl)) by {
            assert forall|a: int, b: int| 0 <= a < b < dl.len() implies !is_entry(
                #[trigger] dl[b],
                dl[a].stat,
                source_view(#[trigger] dl[a].source),
            ) by {
                assert(dl[a] == es[a] && dl[b] == es[b]);
            }
        }
        lemma_named_total(dl, name, stat);
        lemma_lookup_push(dl, es.last(), stat, Some(name));
        assert(dl.push(es.last()) =~= es);
        if has_entry(dl, stat, Some(name)) && is_entry(es.last(), stat, Some(name)) {
            let j = choose|j: int| 0 <= j < dl.len() && is_entry(#[trigger] dl[j], stat, Some(name));
            assert(dl[j] == es[j]);
            assert(!is_entry(es[es.len() - 1], es[j].stat, source_view(es[j].source)));
        }
    }
}

/// Dropping a buff leaves every other source's contributions where they were.
proof fn lemma_strip_lookup(es: Seq<StatEntry>, name: Seq<char>, stat: Stat, source: Option<Seq<char>>)
    ensures
        source != Some(name) ==> lookup(strip(es, name), stat, source) == lookup(es, stat, source),
        !has_entry(strip(es, name), stat, Some(name)),
    decreases es.len(),
{
    lemma_strip_from(es, name);
    if es.len() > 0 {
        let dl = es.drop_last();
        lemma_strip_lookup(dl, name, stat, source);
        let r = strip(dl, name);
        lemma_lookup_push(dl, es.last(), stat, source);
        lemma_lookup_push(r, es.last(), stat, source);
        assert(dl.push(es.last()) =~= es);
        if source != Some(name) {
            assert(lookup(dl, stat, source).is_some() == has_entry(dl, stat, source));
            assert(lookup(r, stat, source).is_some() == has_entry(r, stat, source));
            if has_entry(dl, stat, source) {
                lemma_first_exists(dl, stat, source);
            }
            if has_entry(r, stat, source) {
                lemma_first_exists(r, stat, source);
            }
        }
    } else {
        assert(!has_entry(strip(es, name), stat, Some(name)));
    }
}

/// Whether two sources name the same thing.
fn same_source(a: Option<&'static str>, b: Option<&'static str>) -> (r: bool)
    ensures
        r == (source_view(a) == source_view(b)),
{
    match (a, b) {
        (None, None) => true,
        (Some(x), Some(y)) => {
            let n = x.unicode_len();
            if n != y.unicode_len() {
                assert(x@.len() != y@.len());
                return false;
            }
            let mut i: usize = 0;
            while i < n
                invariant
                    source_view(a) == Some(x@),
                    source_view(b) == Some(y@),
                    n == x@.len(),
                    n == y@.len(),
                    i <= n,
                    forall|k: int| 0 <= k < i ==> x@[k] == y@[k],
                decreases n - i,
            {
                if x.get_char(i) != y.get_char(i) {
                    assert(x@[i as int] != y@[i as int]);
                    assert(x@ != y@);
                    return false;
                }
                i += 1;
            }
            assert(x@ =~= y@);
            true
        },
        _ => false,
    }
}

/// The first position holding the contribution of `source` to `stat`.
fn find_entry(es: &Vec<StatEntry>, stat: Stat, source: Option<&'static str>) -> (r: Option<usize>)
    ensures
        r.is_some() == has_entry(es@, stat, source_view(source)),
        r.is_some() ==> r.unwrap() == first_entry(es@, stat, source_view(source)),
        r.is_some() ==> is_first_entry(es@, stat, source_view(source), r.unwrap() as int),
{
    let mut i: usize = 0;
    while i < es.len()
        invariant
            i <= es.len(),
            forall|k: int| 0 <= k < i ==> !is_entry(#[trigger] es@[k], stat, source_view(source)),
        decreases es.len() - i,
    {
        let e = es[i];
        if e.stat == stat && same_source(e.source, source) {
            proof {
                lemma_first_entry(es@, stat, source_view(source), i as int);
            }
            return Some(i);
        }
        i += 1;
    }
    None
}

/// Sets the contribution of `source` to `stat` to `value`.
fn upsert_entry(es: &Vec<StatEntry>, stat: Stat, source: Option<&'static str>, value: i32) -> (r: Vec<StatEntry>)
    ensures
        r@ == upsert(es@, stat, source, value),
{
    let mut r = copy_items(es);
    match find_entry(es, stat, source) {
        Some(j) => {
            let e = r[j];
            r.set(j, StatEntry { value, ..e });
        },
        None => {
            r.push(StatEntry { stat, source, value });
        },
    }
    r
}

/// Drops the buffs granted under `name`.
fn strip_entries(es: &Vec<StatEntry>, name: &'static str) -> (r: Vec<StatEntry>)
    ensures
        r@ == strip(es@, name@),
{
    let mut r: Vec<StatEntry> = Vec::new();
    let mut i: usize = 0;
    while i < es.len()
        invariant
            i <= es.len(),
            r@ == strip(es@.subrange(0, i as int), name@),
        decreases es.len() - i,
    {
        let e = es[i];
        proof {
            assert(es@.subrange(0, i + 1).drop_last() =~= es@.subrange(0, i as int));
        }
        if !same_source(e.source, Some(name)) {
            r.push(e);
        }
        i += 1;
    }
    assert(es@.subrange(0, es.len() as int) =~= es@);
    r
}

/// The sum of all contributions to `stat`.
fn sum_entries(es: &Vec<StatEntry>, stat: Stat) -> (r: i32)
    requires
        fits_i32(total(es@, stat)),
    ensures
        r == total(es@, stat),
{
    let mut acc: i128 = 0;
    let mut i: usize = 0;
    while i < es.len()
        invariant
            i <= es.len(),
            acc == total(es@.subrange(0, i as int), stat),
            -(i as int) * 0x8000_0000 <= acc <= (i as int) * 0x8000_0000,
        decreases es.len() - i,
    {
        let e = es[i];
        proof {
            assert(es@.subrange(0, i + 1).drop_last() =~= es@.subrange(0, i as int));
            assert((i as int) * 0x8000_0000 <= 0x1_0000_0000_0000_0000 * 0x8000_0000) by (nonlinear_arith)
                requires
                    i <= 0xffff_ffff_ffff_ffff,
            ;
        }
        if e.stat == stat {
            acc = acc + e.value as i128;
        }
        i += 1;
    }
    assert(es@.subrange(0, es.len() as int) =~= es@);
    acc as i32
}

/// The stat entries of a living entity, if it has stats.
pub open spec fn stats_of(w: WorldView, i: usize) -> Option<Seq<StatEntry>> {
    match w.value::<Stats>(i) {
        Some(s) => Some(s@),
        None => None,
    }
}

/// The stat entries of a living entity, or none.
pub open spec fn stats_or_empty(w: WorldView, i: usize) -> Seq<StatEntry> {
    match stats_of(w, i) {
        Some(es) => es,
        None => Seq::empty(),
    }
}

/// The current health of a living entity, if it has health.
pub open spec fn health_of(w: WorldView, i: usize) -> Option<i32> {
    match w.value::<Health>(i) {
        Some(h) => Some(h.0),
        None => None,
    }
}

/// The base value of a stat: zero when the entity is dead, has no stats, or
/// has no base value for it.
pub open spec fn base_of(w: WorldView, i: usize, stat: Stat) -> i32 {
    match lookup(stats_or_empty(w, i), stat, None) {
        Some(v) => v,
        None => 0,
    }
}

/// The maximum of a stat: its base plus all buffs, zero without stats.
pub open spec fn max_of(w: WorldView, i: usize, stat: Stat) -> int {
    total(stats_or_empty(w, i), stat)
}

/// The realtime value of a stat: health for vitality, the maximum for the
/// others; zero without stats.
pub open spec fn current_of(w: WorldView, i: usize, stat: Stat) -> int {
    if stats_of(w, i).is_none() {
        0
    } else if stat == Stat::VITALITY {
        match health_of(w, i) {
            Some(h) => h as int,
            None => 0,
        }
    } else {
        max_of(w, i, stat)
    }
}

/// Whether the stat components are registered.
pub open spec fn ready(w: WorldView) -> bool {
    w.registered(ComponentKind::Stats) && w.registered(ComponentKind::Health)
}

/// The kinds the stat functions write.
pub open spec fn stat_kinds() -> Set<ComponentKind> {
    set![ComponentKind::Stats, ComponentKind::Health]
}

/// Registers the stat components.
pub fn init(w: &mut GameState)
    requires
        old(w).wf(),
    ensures
        final(w).wf(),
        ready(final(w)@),
        final(w)@.records == old(w)@.records,
        final(w)@.synced == old(w)@.synced,
        forall|k: ComponentKind|
            #![trigger old(w)@.registered(k)]
            #![trigger final(w)@.stores[k]]
            old(w)@.registered(k) ==> final(w)@.registered(k) && final(w)@.stores[k] == old(
                w,
            )@.stores[k],
        forall|k: ComponentKind|
            #![trigger final(w)@.registered(k)]
            #![trigger final(w)@.stores[k]]
            !old(w)@.registered(k) ==> final(w)@.registered(k) == (k == ComponentKind::Stats || k == ComponentKind::Health)
                && (final(w)@.registered(k) ==> final(w)@.stores[k] == Map::<usize, ComponentValue>::empty()),
{
    w.register_component::<Stats>();
    w.register_component::<Health>();
}

/// Sets the base value of a stat, giving the entity stats if it has none;
/// for vitality it also sets health to the value. A soft-deleted entity's
/// stats are left alone.
pub fn set_base(w: &mut GameState, i: Entity, stat: Stat, value: i32)
    requires
        old(w).wf(),
        ready(old(w)@),
        i.index() < old(w)@.records.len(),
    ensures
        final(w).wf(),
        changed_only_at(old(w)@, final(w)@, i.index(), stat_kinds()),
        old(w)@.alive(i.index()) ==> stats_of(final(w)@, i.index()) == Some(
            upsert(stats_or_empty(old(w)@, i.index()), stat, None, value),
        ),
        !old(w)@.alive(i.index()) ==> final(w)@.stores[ComponentKind::Stats] == old(
            w,
        )@.stores[ComponentKind::Stats],
        stat == Stat::VITALITY ==> final(w)@.component::<Health>(i.index()) == Some(Health(value)),
        stat != Stat::VITALITY ==> final(w)@.stores[ComponentKind::Health] == old(
            w,
        )@.stores[ComponentKind::Health],
{
    let ghost w0 = w@;
    let entries = match w.clone::<Stats>(i) {
        Some(s) => {
            proof {
                use_type_invariant(&s);
            }
            s.0
        },
        None => Vec::new(),
    };
    proof {
        assert(entries@ == stats_or_empty(w0, i.index()));
        assert(keys_unique(entries@));
    }
    if w.is_alive(i) {
        let next = upsert_entry(&entries, stat, None, value);
        proof {
            lemma_upsert_unique(entries@, stat, None, value);
        }
        w.insert(i, Stats(next));
        proof {
            lemma_changed_only_step(w0, ComponentKind::Stats, i.index(), w@.stores[ComponentKind::Stats][i.index()]);
            assert(w@ == w0.inserted(ComponentKind::Stats, i.index(), w@.stores[ComponentKind::Stats][i.index()]));
        }
    } else {
        proof {
            lemma_changed_only_refl(w0, i.index(), set![ComponentKind::Stats]);
        }
    }
    let ghost w1 = w@;
    proof {
        lemma_changed_only_trans(w0, w1, w1, i.index(), set![ComponentKind::Stats], set![], stat_kinds());
    }
    match stat {
        Stat::VITALITY => {
            w.insert(i, Health(value));
            proof {
                lemma_changed_only_step(w1, ComponentKind::Health, i.index(), Health(value).into_value());
                lemma_changed_only_trans(w0, w1, w@, i.index(), stat_kinds(), set![ComponentKind::Health], stat_kinds());
            }
        },
        _ => {},
    }
}

/// The base value of a stat; zero when the entity is dead, has no stats, or
/// has no base value for it.
pub fn get_base(w: &GameState, i: Entity, stat: Stat) -> (r: i32)
    requires
        w.wf(),
        ready(w@),
    ensures
        r == base_of(w@, i.index(), stat),
{
    if let Some(s) = w.clone::<Stats>(i) {
        if let Some(j) = find_entry(&s.0, stat, None) {
            return s.0[j].value;
        }
    }
    0
}

/// The base value of a stat plus all its buffs; zero without stats.
pub fn get_max(w: &GameState, i: Entity, stat: Stat) -> (r: i32)
    requires
        w.wf(),
        ready(w@),
        fits_i32(max_of(w@, i.index(), stat)),
    ensures
        r == max_of(w@, i.index(), stat),
{
    if let Some(s) = w.clone::<Stats>(i) {
        return sum_entries(&s.0, stat);
    }
    0
}

/// The realtime value of a stat: health for vitality, the maximum for the
/// others; zero without stats.
pub fn get(w: &GameState, i: Entity, stat: Stat) -> (r: i32)
    requires
        w.wf(),
        ready(w@),
        stat != Stat::VITALITY ==> fits_i32(max_of(w@, i.index(), stat)),
    ensures
        r == current_of(w@, i.index(), stat),
{
    if let Some(s) = w.clone::<Stats>(i) {
        match stat {
            Stat::VITALITY => {
                if let Some(h) = w.clone::<Health>(i) {
                    return h.0;
                }
            },
            _ => {
                return sum_entries(&s.0, stat);
            },
        }
    }
    0
}

/// Health after it is set to `value`, if the entity has health.
pub open spec fn health_set(w: WorldView, i: usize, value: i32) -> Option<i32> {
    match health_of(w, i) {
        Some(_) => Some(value),
        None => None,
    }
}

/// Sets the realtime value of a stat: health for vitality (when the entity
/// has health), the base value for the others.
pub fn set(w: &mut GameState, i: Entity, stat: Stat, value: i32)
    requires
        old(w).wf(),
        ready(old(w)@),
        i.index() < old(w)@.records.len(),
    ensures
        final(w).wf(),
        changed_only_at(old(w)@, final(w)@, i.index(), stat_kinds()),
        stat == Stat::VITALITY ==> health_of(final(w)@, i.index()) == health_set(old(w)@, i.index(), value),
        stat == Stat::VITALITY ==> final(w)@.stores[ComponentKind::Stats] == old(
            w,
        )@.stores[ComponentKind::Stats],
        stat != Stat::VITALITY && old(w)@.alive(i.index()) ==> stats_of(final(w)@, i.index()) == Some(
            upsert(stats_or_empty(old(w)@, i.index()), stat, None, value),
        ),
        stat != Stat::VITALITY ==> final(w)@.stores[ComponentKind::Health] == old(
            w,
        )@.stores[ComponentKind::Health],
{
    match stat {
        Stat::VITALITY => {
            let ghost w0 = w@;
            let f = |h: &Health| -> (r: Health)
                ensures
                    r == Health(value),
                { Health(value) };
            w.update(i, f);
            proof {
                if w0.value::<Health>(i.index()).is_some() {
                    lemma_changed_only_step(w0, ComponentKind::Health, i.index(), w@.stores[ComponentKind::Health][i.index()]);
                } else {
                    lemma_changed_only_refl(w0, i.index(), set![ComponentKind::Health]);
                }
                lemma_changed_only_trans(w0, w@, w@, i.index(), set![ComponentKind::Health], set![], stat_kinds());
            }
        },
        _ => {
            set_base(w, i, stat, value);
        },
    }
}

/// Health after `amount` is added to it, if the entity has health.
pub open spec fn health_added(w: WorldView, i: usize, amount: i32) -> Option<i32> {
    match health_of(w, i) {
        Some(h) => Some((h + amount) as i32),
        None => None,
    }
}

/// Adds `amount` to the realtime value of a stat: to health for vitality
/// (the maximum stays), to the base value for the others.
pub fn modify(w: &mut GameState, i: Entity, stat: Stat, amount: i32)
    requires
        old(w).wf(),
        ready(old(w)@),
        i.index() < old(w)@.records.len(),
        stat == Stat::VITALITY && health_of(old(w)@, i.index()).is_some() ==> fits_i32(
            health_of(old(w)@, i.index()).unwrap() + amount,
        ),
        stat != Stat::VITALITY ==> fits_i32(base_of(old(w)@, i.index(), stat) + amount),
    ensures
        final(w).wf(),
        changed_only_at(old(w)@, final(w)@, i.index(), stat_kinds()),
        stat == Stat::VITALITY ==> health_of(final(w)@, i.index()) == health_added(old(w)@, i.index(), amount),
        stat == Stat::VITALITY ==> final(w)@.stores[ComponentKind::Stats] == old(
            w,
        )@.stores[ComponentKind::Stats],
        stat != Stat::VITALITY && old(w)@.alive(i.index()) ==> stats_of(final(w)@, i.index()) == Some(
            upsert(
                stats_or_empty(old(w)@, i.index()),
                stat,
                None,
                (base_of(old(w)@, i.index(), stat) + amount) as i32,
            ),
        ),
        stat != Stat::VITALITY ==> final(w)@.stores[ComponentKind::Health] == old(
            w,
        )@.stores[ComponentKind::Health],
{
    match stat {
        Stat::VITALITY => {
            let ghost w0 = w@;
            let f = |h: &Health| -> (r: Health)
                requires
                    fits_i32(h.0 + amount),
                ensures
                    r.0 == h.0 + amount,
                { Health(h.0 + amount) };
            w.update(i, f);
            proof {
                if w0.value::<Health>(i.index()).is_some() {
                    lemma_changed_only_step(w0, ComponentKind::Health, i.index(), w@.stores[ComponentKind::Health][i.index()]);
                } else {
                    lemma_changed_only_refl(w0, i.index(), set![ComponentKind::Health]);
                }
                lemma_changed_only_trans(w0, w@, w@, i.index(), set![ComponentKind::Health], set![], stat_kinds());
            }
        },
        _ => {
            let base = get_base(w, i, stat);
            set_base(w, i, stat, base + amount);
        },
    }
}

/// The stat entries after a buff: `amount` granted to `stat` under `name`.
pub open spec fn buffed(w: WorldView, i: usize, stat: Stat, name: &'static str, amount: i32) -> Option<Seq<StatEntry>> {
    match stats_of(w, i) {
        Some(es) => Some(upsert(es, stat, Some(name), amount)),
        None => None,
    }
}

/// Health after a vitality buff: lowered to the new maximum if it exceeds it.
pub open spec fn health_after_buff(w: WorldView, i: usize, new_max: int) -> Option<i32> {
    match health_of(w, i) {
        Some(h) => if stats_of(w, i).is_some() && new_max < h {
            Some(new_max as i32)
        } else {
            Some(h)
        },
        None => None,
    }
}

/// Grants `amount` to `stat` under `name`, replacing an earlier buff of that
/// name on that stat. Only an entity with stats is affected. When vitality's
/// new maximum is below the current health, health is lowered to it.
pub fn buff(w: &mut GameState, i: Entity, stat: Stat, name: &'static str, amount: i32)
    requires
        old(w).wf(),
        ready(old(w)@),
        i.index() < old(w)@.records.len(),
        stat == Stat::VITALITY && stats_of(old(w)@, i.index()).is_some() ==> fits_i32(
            total(buffed(old(w)@, i.index(), stat, name, amount).unwrap(), stat),
        ),
    ensures
        final(w).wf(),
        changed_only_at(old(w)@, final(w)@, i.index(), stat_kinds()),
        stats_of(final(w)@, i.index()) == buffed(old(w)@, i.index(), stat, name, amount),
        stat == Stat::VITALITY ==> health_of(final(w)@, i.index()) == health_after_buff(
            old(w)@,
            i.index(),
            max_of(final(w)@, i.index(), stat),
        ),
        stat != Stat::VITALITY ==> final(w)@.stores[ComponentKind::Health] == old(
            w,
        )@.stores[ComponentKind::Health],
{
    let ghost w0 = w@;
    let f = |s: &Stats| -> (r: Stats)
        ensures
            r@ == upsert(s@, stat, Some(name), amount),
        {
            proof {
                use_type_invariant(s);
                lemma_upsert_unique(s@, stat, Some(name), amount);
            }
            Stats(upsert_entry(&s.0, stat, Some(name), amount))
        };
    w.update(i, f);
    let ghost w1 = w@;
    proof {
        if w0.value::<Stats>(i.index()).is_some() {
            lemma_changed_only_step(w0, ComponentKind::Stats, i.index(), w1.stores[ComponentKind::Stats][i.index()]);
        } else {
            lemma_changed_only_refl(w0, i.index(), set![ComponentKind::Stats]);
        }
        lemma_changed_only_trans(w0, w1, w1, i.index(), set![ComponentKind::Stats], set![], stat_kinds());
        assert(stats_of(w1, i.index()) == buffed(w0, i.index(), stat, name, amount));
        assert(health_of(w1, i.index()) == health_of(w0, i.index()));
    }
    match stat {
        Stat::VITALITY => {
            let max = get_max(w, i, stat);
            if max < get(w, i, stat) {
                set(w, i, stat, max);
                proof {
                    lemma_changed_only_trans(w0, w1, w@, i.index(), stat_kinds(), stat_kinds(), stat_kinds());
                    w.lemma_wf();
                    assert(!stat_kinds().contains(ComponentKind::Deleted));
                    assert(w@.stores[ComponentKind::Deleted] == w1.stores[ComponentKind::Deleted]);
                    assert(stats_of(w@, i.index()) == stats_of(w1, i.index()));
                }
            }
        },
        _ => {},
    }
}

/// Removes every buff granted under `name`, on every stat. Health is left as
/// it is.
pub fn unbuff(w: &mut GameState, i: Entity, name: &'static str)
    requires
        old(w).wf(),
        ready(old(w)@),
        i.index() < old(w)@.records.len(),
    ensures
        final(w).wf(),
        changed_only_at(old(w)@, final(w)@, i.index(), set![ComponentKind::Stats]),
        stats_of(final(w)@, i.index()) == match stats_of(old(w)@, i.index()) {
            Some(es) => Some(strip(es, name@)),
            None => None::<Seq<StatEntry>>,
        },
        forall|st: Stat| #[trigger]
            max_of(final(w)@, i.index(), st) == max_of(old(w)@, i.index(), st) - buff_value(
                stats_or_empty(old(w)@, i.index()),
                st,
                name@,
            ),
        forall|st: Stat| #[trigger] base_of(final(w)@, i.index(), st) == base_of(old(w)@, i.index(), st),
        forall|st: Stat| #[trigger]
            lookup(stats_or_empty(final(w)@, i.index()), st, Some(name@)).is_none(),
{
    let ghost w0 = w@;
    let f = |s: &Stats| -> (r: Stats)
        ensures
            r@ == strip(s@, name@),
            keys_unique(s@),
        {
            proof {
                use_type_invariant(s);
                lemma_strip_unique(s@, name@);
            }
            Stats(strip_entries(&s.0, name))
        };
    w.update(i, f);
    proof {
        let es = stats_or_empty(w0, i.index());
        if stats_of(w0, i.index()).is_some() {
            assert(keys_unique(es));
        }
        assert forall|st: Stat|
            #![trigger max_of(w@, i.index(), st)]
            #![trigger base_of(w@, i.index(), st)]
            #![trigger lookup(stats_or_empty(w@, i.index()), st, Some(name@))]
            max_of(w@, i.index(), st) == max_of(w0, i.index(), st) - buff_value(es, st, name@)
                && base_of(w@, i.index(), st) == base_of(w0, i.index(), st)
                && lookup(stats_or_empty(w@, i.index()), st, Some(name@)).is_none() by {
            if stats_of(w0, i.index()).is_some() {
                lemma_strip_total(es, name@, st);
                lemma_named_total(es, name@, st);
                lemma_strip_lookup(es, name@, st, None);
                lemma_strip_lookup(es, name@, st, Some(name@));
            } else {
                assert(!has_entry(es, st, Some(name@)));
                assert(!has_entry(es, st, None));
            }
        }
        if w0.value::<Stats>(i.index()).is_some() {
            lemma_changed_only_step(w0, ComponentKind::Stats, i.index(), w@.stores[ComponentKind::Stats][i.index()]);
        } else {
            lemma_changed_only_refl(w0, i.index(), set![ComponentKind::Stats]);
        }
    }
}

impl Stats {
    /// Each source contributes to each stat at most once.
    #[verifier::type_invariant]
    spec fn keys_are_unique(self) -> bool {
        keys_unique(self.0@)
    }
}

impl View for Stats {
    type V = Seq<StatEntry>;

    closed spec fn view(&self) -> Seq<StatEntry> {
        self.0@
    }
}

impl Component for Stats {
    open spec fn kind() -> ComponentKind {
        ComponentKind::Stats
    }

    fn kind_of() -> (k: ComponentKind) {
        ComponentKind::Stats
    }

    fn storage_kind() -> StorageKind {
        StorageKind::Dense
    }

    open spec fn project(v: ComponentValue) -> Option<Self> {
        match v {
            ComponentValue::Stats(c) => Some(c),
            _ => None,
        }
    }

    open spec fn into_value(self) -> ComponentValue {
        ComponentValue::Stats(self)
    }

    fn wrap(self) -> (v: ComponentValue) {
        ComponentValue::Stats(self)
    }

    fn peek(v: &ComponentValue) -> (r: Option<&Self>) {
        match v {
            ComponentValue::Stats(c) => Some(c),
            _ => None,
        }
    }

    fn duplicate(&self) -> (r: Self) {
        proof {
            use_type_invariant(self);
        }
        Stats(copy_items(&self.0))
    }

    proof fn lemma_project_kind(v: ComponentValue) {
    }

    proof fn lemma_into_value(c: Self) {
    }
}

impl View for Health {
    type V = Health;

    open spec fn view(&self) -> Health {
        *self
    }
}

impl Component for Health {
    open spec fn kind() -> ComponentKind {
        ComponentKind::Health
    }

    fn kind_of() -> (k: ComponentKind) {
        ComponentKind::Health
    }

    fn storage_kind() -> StorageKind {
        StorageKind::Dense
    }

    open spec fn project(v: ComponentValue) -> Option<Self> {
        match v {
            ComponentValue::Health(c) => Some(c),
            _ => None,
        }
    }

    open spec fn into_value(self) -> ComponentValue {
        ComponentValue::Health(self)
    }

    fn wrap(self) -> (v: ComponentValue) {
        ComponentValue::Health(self)
    }

    fn peek(v: &ComponentValue) -> (r: Option<&Self>) {
        match v {
            ComponentValue::Health(c) => Some(c),
            _ => None,
        }
    }

    fn duplicate(&self) -> (r: Self) {
        *self
    }

    proof fn lemma_project_kind(v: ComponentValue) {
    }

    proof fn lemma_into_value(c: Self) {
    }
}

} // verus!
