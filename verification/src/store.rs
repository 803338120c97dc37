//! The aggregate store: a concurrent mapping from label to an accumulating
//! count or duration, backed by a sharded concurrent hash map. A single
//! writer increments entries while readers take whole-map snapshots; no entry
//! is ever removed, so every value is monotonically non-decreasing.

use vstd::prelude::*;

verus! {

#[verifier::external_type_specification]
#[verifier::external_body]
#[verifier::reject_recursive_types(K)]
#[verifier::reject_recursive_types(V)]
#[verifier::reject_recursive_types(S)]
pub struct ExDashMap<K, V, S>(dashmap::DashMap<K, V, S>);

/// The concrete concurrent map the stores are built on.
type LabelMap = dashmap::DashMap<String, u64>;

/// What the concurrent map holds: the mapping from each key's characters to
/// its accumulated value.
pub uninterp spec fn dash_contents(m: LabelMap) -> Map<Seq<char>, u64>;

/// The empty contents.
pub open spec fn empty_contents() -> Map<Seq<char>, u64> {
    Map::empty()
}

/// Relies on dashmap::DashMap::new: creates an empty map.
#[verifier::external_body]
fn dm_new() -> (r: LabelMap)
    ensures
        dash_contents(r) == empty_contents(),
{
    dashmap::DashMap::new()
}

/// The value of `m` at `k` after adding `delta` to it: insert-if-absent then
/// saturating add.
pub open spec fn spec_bump(m: Map<Seq<char>, u64>, k: Seq<char>, delta: u64) -> u64 {
    if m.contains_key(k) {
        if m[k] + delta <= u64::MAX {
            (m[k] + delta) as u64
        } else {
            u64::MAX
        }
    } else {
        delta
    }
}

/// Saturating addition, spelled out so that the closure handed to the map's
/// entry API calls verified code only.
pub fn sat_add_u64(a: u64, b: u64) -> (r: u64)
    ensures
        r == if a + b <= u64::MAX {
            (a + b) as u64
        } else {
            u64::MAX
        },
{
    if a <= u64::MAX - b {
        a + b
    } else {
        u64::MAX
    }
}

/// Relies on dashmap::DashMap::entry with and_modify/or_insert: adds `delta`
/// to the entry at `key`, inserting `delta` when the key is absent, atomically
/// with respect to concurrent readers of the map.
#[verifier::external_body]
fn dm_add(m: &mut LabelMap, key: &String, delta: u64)
    ensures
        dash_contents(*final(m)) == dash_contents(*old(m)).insert(
            key@,
            spec_bump(dash_contents(*old(m)), key@, delta),
        ),
{
    m.entry(key.clone()).and_modify(|v| *v = sat_add_u64(*v, delta)).or_insert(delta);
}

/// Relies on dashmap::DashMap::iter: yields each entry of the map exactly
/// once, in no promised order.
#[verifier::external_body]
fn dm_pairs(m: &LabelMap) -> (r: Vec<(String, u64)>)
    ensures
        forall|i: int, j: int| 0 <= i < j < r@.len() ==> r@[i].0@ != r@[j].0@,
        forall|i: int|
            0 <= i < r@.len() ==> dash_contents(*m).contains_key(r@[i].0@) && dash_contents(*m)[
                r@[i].0@
            ] == r@[i].1,
        forall|k: Seq<char>|
            dash_contents(*m).contains_key(k) ==> exists|i: int|
                0 <= i < r@.len() && r@[i].0@ == k,
{
    m.iter().map(|e| (e.key().clone(), *e.value())).collect()
}

/// A store of accumulating per-label values. The activity store maps an
/// application label to its accumulated active milliseconds; the input-stats
/// store maps an input-event label to its occurrence count.
pub struct AggregateStore {
    map: LabelMap,
}

impl View for AggregateStore {
    type V = Map<Seq<char>, u64>;

    closed spec fn view(&self) -> Map<Seq<char>, u64> {
        dash_contents(self.map)
    }
}

impl AggregateStore {
    /// An empty store.
    pub fn new() -> (r: AggregateStore)
        ensures
            r@ == Map::<Seq<char>, u64>::empty(),
    {
        AggregateStore { map: dm_new() }
    }

    /// Adds `delta` to the value at `key`, inserting `delta` when the key is
    /// absent; the addition saturates at the largest representable value.
    /// No other entry changes.
    pub fn increment(&mut self, key: &String, delta: u64)
        ensures
            final(self)@ == old(self)@.insert(key@, spec_bump(old(self)@, key@, delta)),
    {
        dm_add(&mut self.map, key, delta);
    }

    /// A point-in-time copy of every entry, one pair per key, in no promised
    /// order.
    pub fn pairs(&self) -> (r: Vec<(String, u64)>)
        ensures
            forall|i: int, j: int| 0 <= i < j < r@.len() ==> r@[i].0@ != r@[j].0@,
            forall|i: int|
                0 <= i < r@.len() ==> self@.contains_key(r@[i].0@) && self@[r@[i].0@] == r@[i].1,
            forall|k: Seq<char>|
                self@.contains_key(k) ==> exists|i: int| 0 <= i < r@.len() && r@[i].0@ == k,
    {
        dm_pairs(&self.map)
    }

    /// Loads a parsed snapshot into a fresh store: each listed pair becomes
    /// an entry.
    pub fn from_pairs(pairs: &Vec<(String, u64)>) -> (r: AggregateStore)
        requires
            forall|i: int, j: int| 0 <= i < j < pairs@.len() ==> pairs@[i].0@ != pairs@[j].0@,
        ensures
            forall|i: int|
                0 <= i < pairs@.len() ==> r@.contains_key(pairs@[i].0@) && r@[pairs@[i].0@]
                    == pairs@[i].1,
            forall|k: Seq<char>|
                r@.contains_key(k) ==> exists|i: int| 0 <= i < pairs@.len() && pairs@[i].0@ == k,
    {
        let mut store = AggregateStore::new();
        let mut i: usize = 0;
        while i < pairs.len()
            invariant
                0 <= i <= pairs@.len(),
                forall|a: int, b: int| 0 <= a < b < pairs@.len() ==> pairs@[a].0@ != pairs@[b].0@,
                forall|j: int|
                    0 <= j < i ==> store@.contains_key(pairs@[j].0@) && store@[pairs@[j].0@]
                        == pairs@[j].1,
                forall|k: Seq<char>|
                    store@.contains_key(k) ==> exists|j: int| 0 <= j < i && pairs@[j].0@ == k,
            decreases pairs@.len() - i,
        {
            let (key, value) = (&pairs[i].0, pairs[i].1);
            store.increment(key, value);
            i += 1;
        }
        store
    }
}

/// Whether no label occurs twice in a parsed entry list; only such a list
/// loads into a store one-to-one.
pub fn labels_unique(pairs: &Vec<(String, u64)>) -> (r: bool)
    ensures
        r == (forall|i: int, j: int| 0 <= i < j < pairs@.len() ==> pairs@[i].0@ != pairs@[j].0@),
{
    let mut i: usize = 0;
    while i < pairs.len()
        invariant
            i <= pairs@.len(),
            forall|a: int, b: int| 0 <= a < b < i ==> pairs@[a].0@ != pairs@[b].0@,
        decreases pairs@.len() - i,
    {
        let mut j: usize = 0;
        while j < i
            invariant
                j <= i < pairs@.len(),
                forall|b: int| 0 <= b < j ==> pairs@[b].0@ != pairs@[i as int].0@,
            decreases i - j,
        {
            if pairs[j].0.eq(&pairs[i].0) {
                return false;
            }
            j += 1;
        }
        i += 1;
    }
    true
}

/// The store's map after a whole sequence of increments of `k`.
pub open spec fn apply_increments(m: Map<Seq<char>, u64>, k: Seq<char>, deltas: Seq<u64>) -> Map<
    Seq<char>,
    u64,
>
    decreases deltas.len(),
{
    if deltas.len() == 0 {
        m
    } else {
        apply_increments(
            m.insert(k, spec_bump(m, k, deltas[0])),
            k,
            deltas.drop_first(),
        )
    }
}

/// The sum of a sequence of deltas.
pub open spec fn sum_deltas(deltas: Seq<u64>) -> int
    decreases deltas.len(),
{
    if deltas.len() == 0 {
        0
    } else {
        deltas[0] + sum_deltas(deltas.drop_first())
    }
}

/// No increment is lost: applying any sequence of increments of one label,
/// in any interleaving order the scheduler gives them, leaves the label at
/// its starting value plus the sum of all the deltas, as long as that sum
/// stays representable; every other label is untouched.
pub proof fn lemma_no_lost_updates(m: Map<Seq<char>, u64>, k: Seq<char>, deltas: Seq<u64>)
    requires
        (if m.contains_key(k) {
            m[k] as int
        } else {
            0
        }) + sum_deltas(deltas) <= u64::MAX,
    ensures
        deltas.len() > 0 ==> apply_increments(m, k, deltas).contains_key(k) && apply_increments(
            m,
            k,
            deltas,
        )[k] == (if m.contains_key(k) {
            m[k] as int
        } else {
            0
        }) + sum_deltas(deltas),
        forall|k2: Seq<char>|
            k2 != k ==> #[trigger] apply_increments(m, k, deltas).contains_key(k2)
                == m.contains_key(k2),
        forall|k2: Seq<char>|
            k2 != k && m.contains_key(k2) ==> #[trigger] apply_increments(m, k, deltas)[k2]
                == m[k2],
    decreases deltas.len(),
{
    if deltas.len() > 0 {
        lemma_sum_deltas_nonneg(deltas.drop_first());
        lemma_no_lost_updates(m.insert(k, spec_bump(m, k, deltas[0])), k, deltas.drop_first());
    }
    assert forall|k2: Seq<char>| k2 != k implies #[trigger] apply_increments(
        m,
        k,
        deltas,
    ).contains_key(k2) == m.contains_key(k2) by {
        lemma_frame_one(m, k, deltas, k2);
    }
    assert forall|k2: Seq<char>| k2 != k && m.contains_key(k2) implies #[trigger] apply_increments(
        m,
        k,
        deltas,
    )[k2] == m[k2] by {
        lemma_frame_one(m, k, deltas, k2);
    }
}

/// One label other than `k` is untouched by the increments of `k`.
proof fn lemma_frame_one(m: Map<Seq<char>, u64>, k: Seq<char>, deltas: Seq<u64>, k2: Seq<char>)
    requires
        k2 != k,
    ensures
        apply_increments(m, k, deltas).contains_key(k2) == m.contains_key(k2),
        m.contains_key(k2) ==> apply_increments(m, k, deltas)[k2] == m[k2],
    decreases deltas.len(),
{
    if deltas.len() > 0 {
        lemma_frame_one(m.insert(k, spec_bump(m, k, deltas[0])), k, deltas.drop_first(), k2);
    }
}

/// Each delta is non-negative, so their sum is too.
proof fn lemma_sum_deltas_nonneg(deltas: Seq<u64>)
    ensures
        sum_deltas(deltas) >= 0,
    decreases deltas.len(),
{
    if deltas.len() > 0 {
        lemma_sum_deltas_nonneg(deltas.drop_first());
    }
}

/// An increment never lowers any entry of the store: values accumulate
/// monotonically.
pub proof fn lemma_increment_monotonic(m: Map<Seq<char>, u64>, k: Seq<char>, delta: u64)
    ensures
        forall|k2: Seq<char>|
            m.contains_key(k2) ==> m.insert(k, spec_bump(m, k, delta)).contains_key(k2) && m[k2]
                <= m.insert(k, spec_bump(m, k, delta))[k2],
{
}

} // verus!
