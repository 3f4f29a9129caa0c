//! The chain itself: the map from context key to distribution table, the
//! sliding-window feeding algorithm, the weighted random walk, and merging.

use crate::model::{
    all_none, bump, chain_get, chain_plus, empty_chain, feed_effect, feed_windows, grand_total,
    key_index,
    padded, parts_rows, possible_walk, reals, rows_as_map, rows_table, seed_key,
    seed_prefix_len_from,
    seed_step_ok, seeds_key, shift_key, slot_index,
    table_add, table_as_map, table_get, table_plus, table_total, table_wf, trace_key,
    truncated_walk,
    walk_extends, walk_prefix, walk_trace, wf_rows, wf_rows_except,
};
use crate::rng::{EntropySource, RandomSource, SeededSource};
use crate::table::{
    lemma_slot_index_spec, lemma_table_add_map, lemma_table_add_wf, Table, TableEntry,
};
use crate::token::{key_clone, key_eq, slot_clone, slot_eq, Chainable};
use vstd::prelude::*;

verus! {

/// One row of the chain: a context key and the distribution table of what
/// was observed to follow it.
#[derive(Clone, Debug)]
pub struct ChainEntry<T: Chainable> {
    pub key: Vec<Option<T>>,
    pub table: Table<T>,
}

impl<T: Chainable> DeepView for ChainEntry<T> {
    type V = (Seq<Option<T::V>>, Seq<(Option<T::V>, nat)>);

    open spec fn deep_view(&self) -> Self::V {
        (self.key.deep_view(), self.table.deep_view())
    }
}

/// A generic Markov chain for almost any type. Elements of the chain must
/// implement `Chainable`.
#[derive(Clone, Debug)]
pub struct Chain<T: Chainable> {
    entries: Vec<ChainEntry<T>>,
    order: usize,
}

/// What the model functions yield on an empty state.
pub proof fn lemma_empty_models<V>()
    ensures
        grand_total(Seq::<(Seq<Option<V>>, Seq<(Option<V>, nat)>)>::empty()) == 0,
        table_total(Seq::<(Option<V>, nat)>::empty()) == 0,
        rows_as_map(Seq::<(Seq<Option<V>>, Seq<(Option<V>, nat)>)>::empty()) == Map::<
            Seq<Option<V>>,
            Map<Option<V>, nat>,
        >::empty(),
        table_as_map(Seq::<(Option<V>, nat)>::empty()) == Map::<Option<V>, nat>::empty(),
{
}

/// A key is at some row of `rows` exactly when `key_index` finds one, and
/// `key_index` finds the first such row.
pub proof fn lemma_key_index_spec<V>(
    rows: Seq<(Seq<Option<V>>, Seq<(Option<V>, nat)>)>,
    k: Seq<Option<V>>,
)
    ensures
        key_index(rows, k) >= 0 ==> {
            &&& key_index(rows, k) < rows.len()
            &&& rows[key_index(rows, k)].0 == k
            &&& forall|j: int| 0 <= j < key_index(rows, k) ==> rows[j].0 != k
        },
        key_index(rows, k) < 0 ==> forall|j: int| 0 <= j < rows.len() ==> rows[j].0 != k,
    decreases rows.len(),
{
    if rows.len() == 0 {
    } else if rows.first().0 == k {
    } else {
        let d = rows.drop_first();
        lemma_key_index_spec(d, k);
        let r = key_index(d, k);
        if r >= 0 {
            assert(d[r] == rows[r + 1]);
            assert forall|j: int| 0 <= j < r + 1 implies rows[j].0 != k by {
                if j > 0 {
                    assert(d[j - 1] == rows[j]);
                }
            }
        } else {
            assert forall|j: int| 0 <= j < rows.len() implies rows[j].0 != k by {
                if j > 0 {
                    assert(d[j - 1] == rows[j]);
                }
            }
        }
    }
}

/// A key found at any row is found by `key_index`.
pub proof fn lemma_key_index_nonneg<V>(
    rows: Seq<(Seq<Option<V>>, Seq<(Option<V>, nat)>)>,
    k: Seq<Option<V>>,
)
    ensures
        (key_index(rows, k) >= 0) <==> exists|j: int| 0 <= j < rows.len() && rows[j].0 == k,
{
    lemma_key_index_spec(rows, k);
    if key_index(rows, k) >= 0 {
        assert(rows[key_index(rows, k)].0 == k);
    }
}

/// A key is in the map view exactly when some row holds it.
pub proof fn lemma_rows_map_contains<V>(
    rows: Seq<(Seq<Option<V>>, Seq<(Option<V>, nat)>)>,
    k: Seq<Option<V>>,
)
    ensures
        rows_as_map(rows).dom().contains(k) <==> exists|j: int| 0 <= j < rows.len() && rows[j].0
            == k,
    decreases rows.len(),
{
    if rows.len() == 0 {
    } else {
        lemma_rows_map_contains(rows.drop_last(), k);
        if rows.last().0 == k {
            assert(rows[rows.len() - 1].0 == k);
        } else {
            assert forall|j: int|
                0 <= j < rows.drop_last().len() implies rows.drop_last()[j] == rows[j] by {}
            if exists|j: int| 0 <= j < rows.len() && rows[j].0 == k {
                let j = choose|j: int| 0 <= j < rows.len() && rows[j].0 == k;
                assert(rows.drop_last()[j] == rows[j]);
            }
        }
    }
}

/// With distinct keys, the map view of a row is its table's map view.
pub proof fn lemma_rows_map_value<V>(rows: Seq<(Seq<Option<V>>, Seq<(Option<V>, nat)>)>, i: int)
    requires
        0 <= i < rows.len(),
        forall|a: int, b: int|
            0 <= a < rows.len() && 0 <= b < rows.len() && a != b ==> rows[a].0 != rows[b].0,
    ensures
        rows_as_map(rows).dom().contains(rows[i].0),
        rows_as_map(rows)[rows[i].0] == table_as_map(rows[i].1),
    decreases rows.len(),
{
    if i == rows.len() - 1 {
    } else {
        assert(rows.drop_last()[i] == rows[i]);
        lemma_rows_map_value(rows.drop_last(), i);
        assert(rows.last().0 != rows[i].0);
    }
}

/// Replacing the table at one row updates the map view at that key alone.
pub proof fn lemma_rows_map_update<V>(
    rows: Seq<(Seq<Option<V>>, Seq<(Option<V>, nat)>)>,
    i: int,
    t: Seq<(Option<V>, nat)>,
)
    requires
        0 <= i < rows.len(),
        forall|a: int, b: int|
            0 <= a < rows.len() && 0 <= b < rows.len() && a != b ==> rows[a].0 != rows[b].0,
    ensures
        rows_as_map(rows.update(i, (rows[i].0, t))) == rows_as_map(rows).insert(
            rows[i].0,
            table_as_map(t),
        ),
    decreases rows.len(),
{
    let r2 = rows.update(i, (rows[i].0, t));
    if i == rows.len() - 1 {
        assert(r2.drop_last() =~= rows.drop_last());
        assert(rows_as_map(r2) =~= rows_as_map(rows).insert(rows[i].0, table_as_map(t)));
    } else {
        assert(r2.drop_last() =~= rows.drop_last().update(i, (rows[i].0, t)));
        assert(rows.drop_last()[i] == rows[i]);
        lemma_rows_map_update(rows.drop_last(), i, t);
        assert(r2.last() == rows.last());
        assert(rows.last().0 != rows[i].0);
        assert(rows_as_map(r2) =~= rows_as_map(rows).insert(rows[i].0, table_as_map(t)));
    }
}

/// Appending a row inserts its key into the map view.
pub proof fn lemma_rows_map_push<V>(
    rows: Seq<(Seq<Option<V>>, Seq<(Option<V>, nat)>)>,
    k: Seq<Option<V>>,
    t: Seq<(Option<V>, nat)>,
)
    ensures
        rows_as_map(rows.push((k, t))) == rows_as_map(rows).insert(k, table_as_map(t)),
{
    assert(rows.push((k, t)).drop_last() =~= rows);
    assert(rows.push((k, t)).last() == (k, t));
}

/// Replacing the table at one row moves the grand total by the difference
/// of the table totals.
pub proof fn lemma_grand_update<V>(
    rows: Seq<(Seq<Option<V>>, Seq<(Option<V>, nat)>)>,
    i: int,
    t: Seq<(Option<V>, nat)>,
)
    requires
        0 <= i < rows.len(),
    ensures
        grand_total(rows.update(i, (rows[i].0, t))) + table_total(rows[i].1) == grand_total(rows)
            + table_total(t),
    decreases rows.len(),
{
    let r2 = rows.update(i, (rows[i].0, t));
    if i == rows.len() - 1 {
        assert(r2.drop_last() =~= rows.drop_last());
        assert(r2.last() == (rows[i].0, t));
    } else {
        assert(r2.drop_last() =~= rows.drop_last().update(i, (rows[i].0, t)));
        assert(rows.drop_last()[i] == rows[i]);
        lemma_grand_update(rows.drop_last(), i, t);
        assert(r2.last() == rows.last());
    }
}

/// Appending a row adds its table's total to the grand total.
pub proof fn lemma_grand_push<V>(
    rows: Seq<(Seq<Option<V>>, Seq<(Option<V>, nat)>)>,
    k: Seq<Option<V>>,
    t: Seq<(Option<V>, nat)>,
)
    ensures
        grand_total(rows.push((k, t))) == grand_total(rows) + table_total(t),
{
    assert(rows.push((k, t)).drop_last() =~= rows);
    assert(rows.push((k, t)).last() == (k, t));
}

/// Splitting a chain state splits its grand total.
pub proof fn lemma_grand_split<V>(
    a: Seq<(Seq<Option<V>>, Seq<(Option<V>, nat)>)>,
    b: Seq<(Seq<Option<V>>, Seq<(Option<V>, nat)>)>,
)
    ensures
        grand_total(a + b) == grand_total(a) + grand_total(b),
    decreases b.len(),
{
    if b.len() == 0 {
        assert(a + b =~= a);
    } else {
        lemma_grand_split(a, b.drop_last());
        assert((a + b).drop_last() =~= a + b.drop_last());
        assert((a + b).last() == b.last());
    }
}

/// Extending a prefix of rows by one adds that row's table total.
pub proof fn lemma_grand_prefix_step<V>(rows: Seq<(Seq<Option<V>>, Seq<(Option<V>, nat)>)>, i: int)
    requires
        0 <= i < rows.len(),
    ensures
        grand_total(rows.subrange(0, i + 1)) == grand_total(rows.subrange(0, i)) + table_total(
            rows[i].1,
        ),
{
    assert(rows.subrange(0, i + 1).drop_last() =~= rows.subrange(0, i));
    assert(rows.subrange(0, i + 1).last() == rows[i]);
}

/// A prefix of rows never sums to more than the whole state.
pub proof fn lemma_grand_prefix_le<V>(rows: Seq<(Seq<Option<V>>, Seq<(Option<V>, nat)>)>, i: int)
    requires
        0 <= i <= rows.len(),
    ensures
        grand_total(rows.subrange(0, i)) <= grand_total(rows),
{
    assert(rows =~= rows.subrange(0, i) + rows.subrange(i, rows.len() as int));
    lemma_grand_split(rows.subrange(0, i), rows.subrange(i, rows.len() as int));
}

/// Keys present in a state stay present in any state that keeps the old
/// rows' keys in place.
pub proof fn lemma_rows_extend_presence<V>(
    rows1: Seq<(Seq<Option<V>>, Seq<(Option<V>, nat)>)>,
    rows2: Seq<(Seq<Option<V>>, Seq<(Option<V>, nat)>)>,
)
    requires
        rows2.len() >= rows1.len(),
        forall|i: int| 0 <= i < rows1.len() ==> (#[trigger] rows2[i]).0 == rows1[i].0,
    ensures
        forall|k: Seq<Option<V>>|
            key_index(rows1, k) >= 0 ==> #[trigger] key_index(rows2, k) >= 0,
{
    assert forall|k: Seq<Option<V>>| key_index(rows1, k) >= 0 implies key_index(rows2, k) >= 0 by {
        lemma_key_index_spec(rows1, k);
        lemma_key_index_nonneg(rows2, k);
        let w = key_index(rows1, k);
        assert(rows2[w].0 == k);
    }
}

/// With distinct keys, the map view has exactly one key per row.
pub proof fn lemma_rows_map_dom_len<V>(rows: Seq<(Seq<Option<V>>, Seq<(Option<V>, nat)>)>)
    requires
        forall|a: int, b: int|
            0 <= a < rows.len() && 0 <= b < rows.len() && a != b ==> rows[a].0 != rows[b].0,
    ensures
        rows_as_map(rows).dom().finite(),
        rows_as_map(rows).dom().len() == rows.len(),
    decreases rows.len(),
{
    if rows.len() == 0 {
        assert(rows_as_map(rows).dom() =~= Set::<Seq<Option<V>>>::empty());
    } else {
        let d = rows.drop_last();
        assert(forall|j: int| 0 <= j < d.len() ==> d[j] == rows[j]);
        lemma_rows_map_dom_len(d);
        lemma_rows_map_contains(d, rows.last().0);
        assert(!rows_as_map(d).dom().contains(rows.last().0));
        assert(rows_as_map(rows).dom() =~= rows_as_map(d).dom().insert(rows.last().0));
    }
}

/// No one table's total exceeds the grand total.
pub proof fn lemma_grand_ge_row<V>(rows: Seq<(Seq<Option<V>>, Seq<(Option<V>, nat)>)>, i: int)
    requires
        0 <= i < rows.len(),
    ensures
        table_total(rows[i].1) <= grand_total(rows),
    decreases rows.len(),
{
    if i == rows.len() - 1 {
    } else {
        assert(rows.drop_last()[i] == rows[i]);
        lemma_grand_ge_row(rows.drop_last(), i);
    }
}

impl<T: Chainable> Chain<T> {
    /// The ordered state: each row's key and table, in insertion order.
    pub closed spec fn rows(self) -> Seq<(Seq<Option<T::V>>, Seq<(Option<T::V>, nat)>)> {
        self.entries.deep_view()
    }

    /// The order of the chain: how many preceding tokens form a context.
    pub closed spec fn order_spec(self) -> nat {
        self.order as nat
    }

    /// The chain as a map from context key to distribution map.
    pub open spec fn dist(self) -> Map<Seq<Option<T::V>>, Map<Option<T::V>, nat>> {
        rows_as_map(self.rows())
    }

    /// A chain is well-formed when its ordered state is.
    pub open spec fn wf(self) -> bool {
        wf_rows(self.rows(), self.order_spec())
    }

    /// A chain is empty when nothing was ever observed to follow the
    /// all-sentinel start context.
    pub open spec fn spec_is_empty(self) -> bool {
        rows_table(self.rows(), all_none(self.order_spec())).len() == 0
    }

    /// Builds the all-sentinel context key.
    fn sentinel_key(order: usize) -> (r: Vec<Option<T>>)
        ensures
            r.deep_view() == all_none::<T::V>(order as nat),
    {
        let mut out: Vec<Option<T>> = Vec::new();
        let mut i: usize = 0;
        while i < order
            invariant
                i <= order,
                out.len() == i,
                forall|j: int| 0 <= j < i ==> out@[j] is None,
            decreases order - i,
        {
            out.push(None);
            i += 1;
        }
        proof {
            assert forall|j: int| 0 <= j < order implies out.deep_view()[j]
                == Option::<T::V>::None by {
                assert(out.deep_view()[j] == out@[j].deep_view());
                assert(out@[j] is None);
            }
            assert(out.deep_view() =~= all_none::<T::V>(order as nat));
        }
        out
    }

    /// The row index at which key `k` is stored, if any.
    fn find_key(&self, k: &Vec<Option<T>>) -> (r: Option<usize>)
        ensures
            match r {
                Some(i) => i == key_index(self.rows(), k.deep_view()),
                None => key_index(self.rows(), k.deep_view()) < 0,
            },
    {
        proof {
            lemma_key_index_spec(self.rows(), k.deep_view());
        }
        let ghost ki = key_index(self.rows(), k.deep_view());
        let mut i: usize = 0;
        while i < self.entries.len()
            invariant
                i <= self.entries.len(),
                ki == key_index(self.rows(), k.deep_view()),
                ki >= 0 ==> ki < self.rows().len() && self.rows()[ki].0 == k.deep_view() && (
                forall|j: int| 0 <= j < ki ==> self.rows()[j].0 != k.deep_view()),
                ki < 0 ==> forall|j: int|
                    0 <= j < self.rows().len() ==> self.rows()[j].0 != k.deep_view(),
                forall|j: int| 0 <= j < i ==> self.rows()[j].0 != k.deep_view(),
            decreases self.entries.len() - i,
        {
            if key_eq(&self.entries[i].key, k) {
                proof {
                    assert(self.rows()[i as int].0 == self.entries@[i as int].key.deep_view());
                }
                return Some(i);
            }
            i += 1;
        }
        None
    }

    /// Creates a new Markov chain of the specified order: the number of
    /// previous tokens used as the context for each mapping in the chain.
    /// The order must be at least 1.
    pub fn of_order(order: usize) -> (r: Chain<T>)
        requires
            order >= 1,
        ensures
            r.wf(),
            r.order_spec() == order,
            r.spec_is_empty(),
            r.rows() == seq![
                (all_none::<T::V>(order as nat), Seq::<(Option<T::V>, nat)>::empty()),
            ],
            r.dist() == empty_chain::<T::V>(order as nat),
            grand_total(r.rows()) == 0,
    {
        let key = Self::sentinel_key(order);
        let table = Table::new();
        let mut entries: Vec<ChainEntry<T>> = Vec::new();
        entries.push(ChainEntry { key, table });
        let r = Chain { entries, order };
        proof {
            let rv = r.rows();
            assert(rv =~= seq![
                (all_none::<T::V>(order as nat), Seq::<(Option<T::V>, nat)>::empty()),
            ]);
            assert(rv.first().0 == all_none::<T::V>(order as nat));
            assert(key_index(rv, all_none::<T::V>(order as nat)) == 0);
            lemma_empty_models::<T::V>();
            assert(rv.drop_last() =~= Seq::<
                (Seq<Option<T::V>>, Seq<(Option<T::V>, nat)>),
            >::empty());
            assert(grand_total(rv) == 0);
            assert(table_as_map(rv.last().1) =~= Map::<Option<T::V>, nat>::empty());
            assert(r.dist() =~= empty_chain::<T::V>(order as nat));
        }
        r
    }

    /// Constructs a new Markov chain of order 1.
    pub fn new() -> (r: Chain<T>)
        ensures
            r.wf(),
            r.order_spec() == 1,
            r.spec_is_empty(),
            r.dist() == empty_chain::<T::V>(1),
            grand_total(r.rows()) == 0,
    {
        Self::of_order(1)
    }

    /// Determines whether the chain is empty: whether nothing has ever been
    /// fed into it.
    pub fn is_empty(&self) -> (r: bool)
        requires
            self.wf(),
        ensures
            r == self.spec_is_empty(),
    {
        let key = Self::sentinel_key(self.order);
        proof {
            lemma_key_index_spec(self.rows(), key.deep_view());
        }
        match self.find_key(&key) {
            Some(i) => self.entries[i].table.len() == 0,
            None => {
                proof {
                    assert(false);
                }
                true
            },
        }
    }
}

/// One observation step preserves near-well-formedness: starting from a
/// state whose only unresolved successors point at `kv`, recording the
/// transition `(kv, sv)` resolves them, and leaves at most the successor of
/// the new transition unresolved.
pub proof fn lemma_feed_step_wf<V>(
    rows1: Seq<(Seq<Option<V>>, Seq<(Option<V>, nat)>)>,
    rows2: Seq<(Seq<Option<V>>, Seq<(Option<V>, nat)>)>,
    n: nat,
    kv: Seq<Option<V>>,
    sv: Option<V>,
    nextexc: Option<Seq<Option<V>>>,
)
    requires
        wf_rows_except(rows1, n, Some(kv)),
        kv.len() == n,
        ({
            let ki = key_index(rows1, kv);
            (ki >= 0 && rows2 == rows1.update(ki, (kv, table_add(rows1[ki].1, sv, 1)))) || (ki < 0
                && rows2 == rows1.push((kv, seq![(sv, 1 as nat)])))
        }),
        sv is Some ==> nextexc == Some(shift_key(kv, sv)),
    ensures
        wf_rows_except(rows2, n, nextexc),
        key_index(rows2, kv) >= 0,
        forall|i: int|
            0 <= i < rows1.len() ==> (#[trigger] rows2[i]).0 == rows1[i].0 && rows2[i].1.len()
                >= rows1[i].1.len(),
        rows_table(rows2, kv).len() > 0,
{
    let ki = key_index(rows1, kv);
    lemma_key_index_spec(rows1, kv);
    let t1 = if ki >= 0 {
        rows1[ki].1
    } else {
        Seq::<(Option<V>, nat)>::empty()
    };
    let t2 = if ki >= 0 {
        table_add(t1, sv, 1)
    } else {
        seq![(sv, 1 as nat)]
    };
    let mi = if ki >= 0 {
        ki
    } else {
        rows1.len() as int
    };
    lemma_slot_index_spec(t1, sv);
    // the shape of the modified table: old slots kept in place, the
    // recorded slot possibly appended
    assert(t2.len() >= 1);
    assert(rows2[mi] == (kv, t2));
    assert(forall|j2: int|
        0 <= j2 < t2.len() ==> (j2 < t1.len() && t2[j2] == t1[j2]) || (#[trigger] t2[j2]).0 == sv);
    if ki >= 0 {
        lemma_table_add_wf(t1, sv, 1);
    }
    assert(table_wf(t2));
    // keys are kept in place
    assert(forall|i: int| 0 <= i < rows1.len() && i != mi ==> rows2[i] == rows1[i]);
    assert(forall|i: int| 0 <= i < rows1.len() ==> rows2[i].0 == rows1[i].0);
    // presence of a key transfers from rows1 to rows2
    assert forall|x: Seq<Option<V>>| key_index(rows1, x) >= 0 implies key_index(rows2, x)
        >= 0 by {
        lemma_key_index_nonneg(rows1, x);
        lemma_key_index_nonneg(rows2, x);
        let w = choose|j: int| 0 <= j < rows1.len() && rows1[j].0 == x;
        assert(rows2[w].0 == x);
    }
    // the fed key is now present
    assert(key_index(rows2, kv) >= 0) by {
        lemma_key_index_nonneg(rows2, kv);
        assert(rows2[mi].0 == kv);
    }
    // distinctness
    assert forall|a: int, b: int|
        0 <= a < rows2.len() && 0 <= b < rows2.len() && a != b implies rows2[a].0
        != rows2[b].0 by {
        if ki < 0 {
            if a < rows1.len() && b == rows1.len() {
                assert(rows1[a].0 != kv);
            } else if b < rows1.len() && a == rows1.len() {
                assert(rows1[b].0 != kv);
            }
        }
    }
    // every unresolved successor is the excused one
    assert forall|i: int, j2: int|
        0 <= i < rows2.len() && 0 <= j2 < rows2[i].1.len() && rows2[i].1[j2].0 is Some implies
        key_index(rows2, shift_key(rows2[i].0, rows2[i].1[j2].0)) >= 0 || Some(
        shift_key(rows2[i].0, rows2[i].1[j2].0),
    ) == nextexc by {
        let s0 = rows2[i].1[j2].0;
        if i == mi && !(j2 < t1.len() && t2[j2] == t1[j2]) {
            // the freshly recorded transition
            assert(s0 == sv);
        } else {
            // a transition rows1 already had
            assert(rows1[i].1[j2].0 == s0);
            assert(key_index(rows1, shift_key(rows1[i].0, s0)) >= 0 || Some(
                shift_key(rows1[i].0, s0),
            ) == Some(kv));
            if key_index(rows1, shift_key(rows1[i].0, s0)) >= 0 {
                assert(key_index(rows2, shift_key(rows1[i].0, s0)) >= 0);
            } else {
                assert(shift_key(rows1[i].0, s0) == kv);
            }
        }
    }
    // the fed key's row is non-empty, and rows_table finds it
    assert(rows_table(rows2, kv).len() > 0) by {
        lemma_key_index_spec(rows2, kv);
        let k2 = key_index(rows2, kv);
        if k2 != mi {
            assert(rows2[k2].0 == rows2[mi].0);
            assert(false);
        }
    }
    // every non-start key keeps a non-empty table
    assert forall|i: int|
        0 <= i < rows2.len() && rows2[i].0 != all_none::<V>(n) implies rows2[i].1.len() > 0 by {
        if i < rows1.len() && i != mi {
            assert(rows2[i] == rows1[i]);
        }
    }
}

impl<T: Chainable> Chain<T> {
    /// Records one observation: slot `s` seen after context `key`.
    fn observe(&mut self, key: Vec<Option<T>>, s: Option<T>)
        requires
            forall|a: int, b: int|
                0 <= a < old(self).rows().len() && 0 <= b < old(self).rows().len() && a != b
                    ==> old(self).rows()[a].0 != old(self).rows()[b].0,
            forall|i: int|
                0 <= i < old(self).rows().len() ==> table_wf(#[trigger] old(self).rows()[i].1),
            grand_total(old(self).rows()) + 1 <= usize::MAX,
        ensures
            final(self).order_spec() == old(self).order_spec(),
            ({
                let rows0 = old(self).rows();
                let kv = key.deep_view();
                let sv = s.deep_view();
                let ki = key_index(rows0, kv);
                &&& (ki >= 0 ==> final(self).rows() == rows0.update(
                    ki,
                    (kv, table_add(rows0[ki].1, sv, 1)),
                ))
                &&& (ki < 0 ==> final(self).rows() == rows0.push((kv, seq![(sv, 1 as nat)])))
                &&& final(self).dist() == bump(old(self).dist(), kv, sv)
                &&& grand_total(final(self).rows()) == grand_total(rows0) + 1
            }),
    {
        let ghost rows0 = self.rows();
        let ghost kv = key.deep_view();
        let ghost sv = s.deep_view();
        proof {
            lemma_key_index_spec(rows0, kv);
            lemma_rows_map_contains(rows0, kv);
        }
        match self.find_key(&key) {
            Some(i) => {
                let ghost iv = i as int;
                let ghost t1 = rows0[iv].1;
                proof {
                    let e0 = self.entries@[iv];
                    assert(rows0[iv] == (e0.key.deep_view(), e0.table.deep_view()));
                    lemma_grand_ge_row(rows0, iv);
                }
                let e = &mut self.entries[i];
                e.table.record(s, 1);
                proof {
                    assert(self.rows() =~= rows0.update(iv, (kv, table_add(t1, sv, 1))));
                    lemma_rows_map_value(rows0, iv);
                    lemma_table_add_map(t1, sv, 1);
                    lemma_rows_map_update(rows0, iv, table_add(t1, sv, 1));
                    assert(self.dist() =~= bump(rows_as_map(rows0), kv, sv));
                    lemma_grand_update(rows0, iv, table_add(t1, sv, 1));
                }
            },
            None => {
                let mut table = Table::new();
                table.record(s, 1);
                self.entries.push(ChainEntry { key, table });
                proof {
                    assert(slot_index(Seq::<(Option<T::V>, nat)>::empty(), sv) < 0);
                    assert(table.deep_view() =~= seq![(sv, 1 as nat)]);
                    assert(self.rows() =~= rows0.push((kv, seq![(sv, 1 as nat)])));
                    lemma_rows_map_push(rows0, kv, seq![(sv, 1 as nat)]);
                    assert(table_as_map(seq![(sv, 1 as nat)]) =~= Map::<
                        Option<T::V>,
                        nat,
                    >::empty().insert(sv, 1)) by {
                        assert(seq![(sv, 1 as nat)].drop_last() =~= Seq::<
                            (Option<T::V>, nat),
                        >::empty());
                        lemma_empty_models::<T::V>();
                    }
                    assert(!rows_as_map(rows0).dom().contains(kv));
                    assert(self.dist() =~= bump(rows_as_map(rows0), kv, sv));
                    lemma_grand_push(rows0, kv, seq![(sv, 1 as nat)]);
                    assert(table_total(seq![(sv, 1 as nat)]) == 1) by {
                        assert(seq![(sv, 1 as nat)].drop_last() =~= Seq::<
                            (Option<T::V>, nat),
                        >::empty());
                        lemma_empty_models::<T::V>();
                    }
                }
            },
        }
    }

    /// Feeds the chain a collection of tokens: every window of `order + 1`
    /// consecutive slots of the padded sequence becomes (or reinforces) one
    /// transition. Feeding an empty collection changes nothing.
    pub fn feed(&mut self, tokens: Vec<T>)
        requires
            old(self).wf(),
            grand_total(old(self).rows()) + tokens@.len() + 1 <= usize::MAX,
        ensures
            final(self).wf(),
            final(self).order_spec() == old(self).order_spec(),
            final(self).dist() == feed_effect(
                old(self).dist(),
                old(self).order_spec(),
                tokens.deep_view(),
            ),
            tokens@.len() == 0 ==> final(self).rows() == old(self).rows(),
            tokens@.len() > 0 ==> !final(self).spec_is_empty(),
            grand_total(final(self).rows()) <= grand_total(old(self).rows()) + tokens@.len() + 1,
    {
        let ghost n = self.order_spec();
        let ghost toks = tokens.deep_view();
        let ghost dist0 = self.dist();
        let ghost g0 = grand_total(self.rows());
        if tokens.len() == 0 {
            return ;
        }
        let order = self.order;
        let k = tokens.len();
        // build the padded sequence
        let mut p: Vec<Option<T>> = Vec::new();
        let mut i: usize = 0;
        while i < order
            invariant
                i <= order,
                p.len() == i,
                forall|j: int| 0 <= j < i ==> p@[j] is None,
            decreases order - i,
        {
            p.push(None);
            i += 1;
        }
        let mut w: usize = 0;
        while w < k
            invariant
                w <= k,
                k == tokens.len(),
                p.len() == order + w,
                forall|j: int| 0 <= j < order ==> p@[j] is None,
                forall|j: int|
                    order <= j < order + w ==> p@[j] is Some && (#[trigger] p@[j]).deep_view()
                        == Option::Some(tokens.deep_view()[j - order]),
            decreases k - w,
        {
            p.push(Some(tokens[w].token_clone()));
            w += 1;
        }
        p.push(None);
        let ghost pv = p.deep_view();
        proof {
            assert forall|j: int| 0 <= j < pv.len() implies pv[j] == padded(n, toks)[j] by {
                assert(pv[j] == p@[j].deep_view());
                assert(toks.map_values(|t: T::V| Option::Some(t)).len() == toks.len());
                if j < order {
                    assert(p@[j] is None);
                } else if j < p.len() - 1 {
                    assert(p@[j].deep_view() == Option::Some(toks[j - order]));
                    assert(padded(n, toks)[j] == toks.map_values(|t: T::V| Option::Some(t))[j - n]);
                } else {
                    assert(p@[j] is None);
                }
            }
            assert(pv =~= padded(n, toks));
            assert(pv.len() == n + toks.len() + 1);
            assert(pv.last() is None);
        }
        // slide the window
        let mut j: usize = 0;
        while j + order < p.len()
            invariant
                j <= k + 1,
                k == toks.len(),
                order >= 1,
                p.len() == order + k + 1,
                n == order as nat,
                pv == p.deep_view(),
                pv == padded(n, toks),
                pv.last() is None,
                self.order == order,
                n == self.order_spec(),
                wf_rows_except(
                    self.rows(),
                    n,
                    if j + n < pv.len() {
                        Some(pv.subrange(j as int, j + n))
                    } else {
                        None
                    },
                ),
                grand_total(self.rows()) == g0 + j,
                g0 + k + 1 <= usize::MAX,
                feed_windows(self.dist(), pv, n, j as nat) == feed_windows(dist0, pv, n, 0),
                j > 0 ==> rows_table(self.rows(), all_none::<T::V>(n)).len() > 0,
            decreases p.len() - j,
        {
            let ghost rows1 = self.rows();
            // the window's key and following slot
            let mut key: Vec<Option<T>> = Vec::new();
            let mut q: usize = j;
            while q < j + order
                invariant
                    j <= q <= j + order,
                    j + order < p.len(),
                    key.len() == q - j,
                    pv == p.deep_view(),
                    forall|x: int| 0 <= x < q - j ==> (#[trigger] key@[x]).deep_view() == pv[j + x],
                decreases j + order - q,
            {
                key.push(slot_clone(&p[q]));
                q += 1;
                proof {
                    assert(pv[q - 1] == p@[q - 1].deep_view());
                }
            }
            let s = slot_clone(&p[j + order]);
            let ghost kv = key.deep_view();
            let ghost sv = s.deep_view();
            proof {
                assert forall|x: int| 0 <= x < n implies kv[x] == pv[j + x] by {
                    assert(kv[x] == key@[x].deep_view());
                }
                assert(kv =~= pv.subrange(j as int, j + n));
                assert(sv == pv[j + n]);
            }
            self.observe(key, s);
            proof {
                let rows2 = self.rows();
                assert(feed_windows(rows_as_map(rows2), pv, n, (j + 1) as nat) == feed_windows(
                    rows_as_map(rows1),
                    pv,
                    n,
                    j as nat,
                ));
                let nextexc: Option<Seq<Option<T::V>>> = if j + 1 + n < pv.len() {
                    Some(pv.subrange(j + 1, j + 1 + n))
                } else {
                    None
                };
                if sv is Some {
                    assert(j + 1 + n < pv.len());
                    assert(shift_key(kv, sv) =~= pv.subrange(j + 1, j + 1 + n));
                }
                lemma_feed_step_wf(rows1, rows2, n, kv, sv, nextexc);
                if j > 0 {
                    let an = all_none::<T::V>(n);
                    let ki1 = key_index(rows1, an);
                    let ki2 = key_index(rows2, an);
                    lemma_key_index_spec(rows1, an);
                    lemma_key_index_spec(rows2, an);
                    assert(rows2[ki1].0 == rows1[ki1].0);
                    if ki2 > ki1 {
                        assert(rows2[ki1].0 != an);
                        assert(false);
                    }
                    assert(rows1[ki2].0 == rows2[ki2].0);
                    if ki2 < ki1 {
                        assert(rows1[ki2].0 != an);
                        assert(false);
                    }
                    assert(rows_table(rows2, an) == rows2[ki1].1);
                    assert(rows2[ki1].1.len() >= rows1[ki1].1.len());
                    assert(rows_table(rows1, an) == rows1[ki1].1);
                } else {
                    assert(kv =~= all_none::<T::V>(n));
                    assert(rows_table(rows2, all_none::<T::V>(n)).len() > 0);
                }
            }
            j += 1;
        }
        proof {
            let rowsf = self.rows();
            assert(j + n >= pv.len());
            assert(j == k + 1);
            assert(wf_rows_except(rowsf, n, None));
            assert(grand_total(rowsf) <= usize::MAX);
            assert(self.wf());
            assert(feed_windows(self.dist(), pv, n, j as nat) == self.dist());
            assert(self.dist() == feed_effect(dist0, n, toks));
            // the start context now has at least one observation
            assert(!self.spec_is_empty());
        }
    }
}

/// A walk's context at step `j` does not depend on the slots picked later.
pub proof fn lemma_trace_key_prefix<V>(
    start: Seq<Option<V>>,
    picked: Seq<Option<V>>,
    x: Option<V>,
    j: int,
)
    requires
        j <= picked.len(),
    ensures
        trace_key(start, picked.push(x), j) == trace_key(start, picked, j),
    decreases j,
{
    if j > 0 {
        lemma_trace_key_prefix(start, picked, x, j - 1);
        assert(picked.push(x)[j - 1] == picked[j - 1]);
    }
}

/// Picking one more slot appends its real token to the walk's output, or
/// nothing if it was the sentinel.
pub proof fn lemma_reals_push<V>(picked: Seq<Option<V>>, s: Option<V>)
    ensures
        s is Some ==> reals(picked.push(s)) == reals(picked).push(s->0),
        s is None ==> reals(picked.push(s)) == reals(picked),
    decreases picked.len(),
{
    let p2 = picked.push(s);
    if picked.len() == 0 {
        assert(p2.first() == s);
        assert(p2.drop_first() =~= picked);
        if s is Some {
            assert(reals(p2) =~= reals(picked).push(s->0));
        } else {
            assert(reals(p2) =~= reals(picked));
        }
    } else {
        assert(p2.first() == picked.first());
        assert(p2.drop_first() =~= picked.drop_first().push(s));
        lemma_reals_push(picked.drop_first(), s);
        if s is Some {
            assert(reals(p2) =~= reals(picked).push(s->0));
        } else {
            assert(reals(p2) =~= reals(picked));
        }
    }
}

/// Exhibits one run of the walk as a witness that the output extension is
/// possible.
pub proof fn lemma_walk_extends_intro<V>(
    rows: Seq<(Seq<Option<V>>, Seq<(Option<V>, nat)>)>,
    start: Seq<Option<V>>,
    pre: Seq<V>,
    post: Seq<V>,
    picked: Seq<Option<V>>,
    caps: Seq<nat>,
)
    requires
        walk_trace(rows, start, picked, caps) || truncated_walk(rows, start, picked, caps),
        post == pre + reals(picked),
    ensures
        walk_extends(rows, start, pre, post),
{
    assert((walk_trace(rows, start, picked, caps) || truncated_walk(rows, start, picked, caps))
        && post == pre + reals(picked));
}

/// The model state a deterministic source reaches after the walk's first
/// `j` draws, whose bounds are the table totals along the trace.
pub open spec fn source_model_at<V, R: RandomSource>(
    m0: Seq<nat>,
    rows: Seq<(Seq<Option<V>>, Seq<(Option<V>, nat)>)>,
    start: Seq<Option<V>>,
    picked: Seq<Option<V>>,
    j: int,
) -> Seq<nat>
    decreases j,
{
    if j <= 0 {
        m0
    } else {
        R::next_of(
            source_model_at::<V, R>(m0, rows, start, picked, j - 1),
            table_total(rows_table(rows, trace_key(start, picked, j - 1))),
        )
    }
}

/// Every cap of the walk is the one the deterministic source yields in
/// the model state it has reached.
pub open spec fn caps_from_source<V, R: RandomSource>(
    m0: Seq<nat>,
    rows: Seq<(Seq<Option<V>>, Seq<(Option<V>, nat)>)>,
    start: Seq<Option<V>>,
    picked: Seq<Option<V>>,
    caps: Seq<nat>,
) -> bool {
    forall|j: int|
        0 <= j < caps.len() ==> (#[trigger] caps[j]) == R::cap_of(
            source_model_at::<V, R>(m0, rows, start, picked, j),
            table_total(rows_table(rows, trace_key(start, picked, j))),
        )
}

/// Like `walk_extends`, for a deterministic source started in model state
/// `m0`: the appended tokens are the real tokens of the one walk whose
/// caps the source dictates.
pub open spec fn walk_extends_det<V, R: RandomSource>(
    m0: Seq<nat>,
    rows: Seq<(Seq<Option<V>>, Seq<(Option<V>, nat)>)>,
    start: Seq<Option<V>>,
    pre: Seq<V>,
    post: Seq<V>,
) -> bool {
    exists|picked: Seq<Option<V>>, caps: Seq<nat>|
        (walk_trace(rows, start, picked, caps) || truncated_walk(rows, start, picked, caps))
            && picked.len() <= usize::MAX && caps_from_source::<V, R>(
            m0,
            rows,
            start,
            picked,
            caps,
        ) && post == pre + reals(picked)
}

/// The source's model state after `j` steps does not depend on the slots
/// picked later.
proof fn lemma_source_model_prefix<V, R: RandomSource>(
    m0: Seq<nat>,
    rows: Seq<(Seq<Option<V>>, Seq<(Option<V>, nat)>)>,
    start: Seq<Option<V>>,
    picked: Seq<Option<V>>,
    x: Option<V>,
    j: int,
)
    requires
        j <= picked.len(),
    ensures
        source_model_at::<V, R>(m0, rows, start, picked.push(x), j) == source_model_at::<V, R>(
            m0,
            rows,
            start,
            picked,
            j,
        ),
    decreases j,
{
    if j > 0 {
        lemma_source_model_prefix::<V, R>(m0, rows, start, picked, x, j - 1);
        lemma_trace_key_prefix(start, picked, x, j - 1);
    }
}

/// Exhibits one run of the walk as a witness that the deterministic
/// output extension is possible.
pub proof fn lemma_walk_extends_det_intro<V, R: RandomSource>(
    m0: Seq<nat>,
    rows: Seq<(Seq<Option<V>>, Seq<(Option<V>, nat)>)>,
    start: Seq<Option<V>>,
    pre: Seq<V>,
    post: Seq<V>,
    picked: Seq<Option<V>>,
    caps: Seq<nat>,
)
    requires
        walk_trace(rows, start, picked, caps) || truncated_walk(rows, start, picked, caps),
        picked.len() <= usize::MAX,
        caps_from_source::<V, R>(m0, rows, start, picked, caps),
        post == pre + reals(picked),
    ensures
        walk_extends_det::<V, R>(m0, rows, start, pre, post),
{
    assert((walk_trace(rows, start, picked, caps) || truncated_walk(rows, start, picked, caps))
        && picked.len() <= usize::MAX && caps_from_source::<V, R>(m0, rows, start, picked, caps)
        && post == pre + reals(picked));
}

impl<T: Chainable> Chain<T> {
    /// The weighted random walk: repeatedly draws the next slot from the
    /// current context's table, slides the context, appends real tokens to
    /// `out`, and stops when the sentinel is drawn. At most `usize::MAX`
    /// draws are made; no feasible run reaches that cutoff.
    #[verifier::rlimit(100)]
    fn walk_from<R: RandomSource>(&self, rng: &mut R, start: Vec<Option<T>>, out: &mut Vec<T>)
        requires
            self.wf(),
            key_index(self.rows(), start.deep_view()) >= 0,
            rows_table(self.rows(), start.deep_view()).len() > 0,
        ensures
            walk_extends(
                self.rows(),
                start.deep_view(),
                old(out).deep_view(),
                final(out).deep_view(),
            ),
            R::deterministic() ==> walk_extends_det::<T::V, R>(
                old(rng).model(),
                self.rows(),
                start.deep_view(),
                old(out).deep_view(),
                final(out).deep_view(),
            ),
    {
        let ghost startv = start.deep_view();
        let ghost rows = self.rows();
        let ghost out0 = out.deep_view();
        let ghost m0 = rng.model();
        let mut curs = key_clone(&start);
        let ghost mut picked: Seq<Option<T::V>> = Seq::empty();
        let ghost mut caps: Seq<nat> = Seq::empty();
        let mut steps: usize = 0;
        proof {
            assert(out.deep_view() =~= out0 + reals(picked));
        }
        while steps < usize::MAX
            invariant
                self.wf(),
                rows == self.rows(),
                startv == start.deep_view(),
                out0 == old(out).deep_view(),
                steps == picked.len(),
                picked.len() == caps.len(),
                walk_prefix(rows, startv, picked, caps),
                m0 == old(rng).model(),
                R::deterministic() ==> rng.model() == source_model_at::<T::V, R>(
                    m0,
                    rows,
                    startv,
                    picked,
                    picked.len() as int,
                ),
                R::deterministic() ==> caps_from_source::<T::V, R>(m0, rows, startv, picked, caps),
                forall|j: int| 0 <= j < picked.len() ==> (#[trigger] picked[j]) is Some,
                curs.deep_view() == trace_key(startv, picked, picked.len() as int),
                key_index(rows, curs.deep_view()) >= 0,
                rows_table(rows, curs.deep_view()).len() > 0,
                out.deep_view() == out0 + reals(picked),
            decreases usize::MAX - steps,
        {
            let ghost cursv = curs.deep_view();
            let i: usize = match self.find_key(&curs) {
                Some(i) => i,
                None => {
                    proof {
                        assert(false);
                    }
                    0
                },
            };
            let ghost tseq = rows[i as int].1;
            proof {
                lemma_key_index_spec(rows, cursv);
                let e0 = self.entries@[i as int];
                assert(rows[i as int] == (e0.key.deep_view(), e0.table.deep_view()));
                assert(rows_table(rows, cursv) == tseq);
                lemma_grand_ge_row(rows, i as int);
                assert(table_total(tseq) >= 1) by {
                    assert(table_total(tseq) == table_total(tseq.drop_last()) + tseq.last().1);
                    assert(tseq[tseq.len() - 1].1 >= 1);
                }
            }
            let total = self.entries[i].table.total();
            let ghost mpre = rng.model();
            let cap = rng.draw_below(total);
            let next = self.entries[i].table.pick(cap);
            let ghost nv = next.deep_view();
            let ghost picked0 = picked;
            proof {
                picked = picked.push(nv);
                caps = caps.push(cap as nat);
                assert forall|j: int| 0 <= j <= picked0.len() implies trace_key(startv, picked, j)
                    == trace_key(startv, picked0, j) by {
                    lemma_trace_key_prefix(startv, picked0, nv, j);
                }
                assert(trace_key(startv, picked, picked.len() as int) == shift_key(cursv, nv));
                assert(walk_prefix(rows, startv, picked, caps));
                lemma_reals_push(picked0, nv);
                if R::deterministic() {
                    assert forall|j: int|
                        0 <= j <= picked0.len() implies source_model_at::<T::V, R>(
                        m0,
                        rows,
                        startv,
                        picked,
                        j,
                    ) == source_model_at::<T::V, R>(m0, rows, startv, picked0, j) by {
                        lemma_source_model_prefix::<T::V, R>(m0, rows, startv, picked0, nv, j);
                    }
                    assert(mpre == source_model_at::<T::V, R>(
                        m0,
                        rows,
                        startv,
                        picked,
                        picked0.len() as int,
                    ));
                    assert(trace_key(startv, picked, picked0.len() as int) == cursv);
                    assert(caps[picked0.len() as int] == R::cap_of(mpre, table_total(tseq)));
                    assert(caps_from_source::<T::V, R>(m0, rows, startv, picked, caps));
                    assert(rng.model() == source_model_at::<T::V, R>(
                        m0,
                        rows,
                        startv,
                        picked,
                        picked.len() as int,
                    ));
                }
            }
            match next {
                Some(t) => {
                    let ghost tdv = t.deep_view();
                    proof {
                        assert(nv == Some(tdv));
                    }
                    let mut nk: Vec<Option<T>> = Vec::new();
                    let mut x: usize = 1;
                    while x < curs.len()
                        invariant
                            1 <= x <= curs.len(),
                            nk.len() == x - 1,
                            cursv == curs.deep_view(),
                            forall|y: int|
                                0 <= y < x - 1 ==> (#[trigger] nk@[y]).deep_view() == cursv[y + 1],
                        decreases curs.len() - x,
                    {
                        nk.push(slot_clone(&curs[x]));
                        x += 1;
                        proof {
                            assert(cursv[x - 1] == curs@[x - 1].deep_view());
                        }
                    }
                    nk.push(Some(t.token_clone()));
                    let ghost outpre = out.deep_view();
                    out.push(t);
                    curs = nk;
                    steps += 1;
                    proof {
                        assert forall|y: int| 0 <= y < curs@.len() implies curs.deep_view()[y]
                            == shift_key(cursv, nv)[y] by {
                            assert(curs.deep_view()[y] == curs@[y].deep_view());
                        }
                        assert(curs.deep_view() =~= shift_key(cursv, nv));
                        // the drawn token's context has a row by the
                        // successor-closure of well-formedness
                        let si = slot_index(tseq, nv);
                        lemma_slot_index_spec(tseq, nv);
                        assert(tseq[si].0 == nv);
                        assert(key_index(rows, shift_key(rows[i as int].0, tseq[si].0)) >= 0);
                        assert(rows[i as int].0 == cursv);
                        // that row is not the start context, so its table
                        // is non-empty
                        let k2 = key_index(rows, shift_key(cursv, nv));
                        lemma_key_index_spec(rows, shift_key(cursv, nv));
                        let n = self.order_spec();
                        assert(cursv.len() == n);
                        assert(shift_key(cursv, nv).last() is Some);
                        assert(all_none::<T::V>(n)[n - 1] is None);
                        assert(rows[k2].0 != all_none::<T::V>(n));
                        assert(rows_table(rows, shift_key(cursv, nv)) == rows[k2].1);
                        // output bookkeeping
                        assert(reals(picked) == reals(picked0).push(tdv));
                        assert(outpre == out0 + reals(picked0));
                        assert(reals(picked).len() == reals(picked0).len() + 1);
                        assert(outpre.len() == out0.len() + reals(picked0).len());
                        assert(out@.len() == outpre.len() + 1);
                        assert((out0 + reals(picked)).len() == out@.len());
                        assert forall|y: int| 0 <= y < out@.len() implies out.deep_view()[y] == (
                        out0 + reals(picked))[y] by {
                            assert(out.deep_view()[y] == out@[y].deep_view());
                            if y < out0.len() {
                                assert(out@[y].deep_view() == outpre[y]);
                                assert(outpre[y] == out0[y]);
                                assert((out0 + reals(picked))[y] == out0[y]);
                            } else if y < out@.len() - 1 {
                                assert(out@[y].deep_view() == outpre[y]);
                                assert(outpre[y] == reals(picked0)[y - out0.len()]);
                                assert(reals(picked)[y - out0.len()] == reals(picked0)[y
                                    - out0.len()]);
                                assert((out0 + reals(picked))[y] == reals(picked)[y - out0.len()]);
                            } else {
                                assert(out@[y].deep_view() == tdv);
                                assert(reals(picked)[y - out0.len()] == tdv);
                                assert((out0 + reals(picked))[y] == reals(picked)[y - out0.len()]);
                            }
                        }
                        assert(out.deep_view() =~= out0 + reals(picked));
                    }
                },
                None => {
                    proof {
                        assert(picked.last() is None);
                        assert(walk_trace(rows, startv, picked, caps));
                        lemma_reals_push(picked0, nv);
                        assert(out.deep_view() =~= out0 + reals(picked));
                        lemma_walk_extends_intro(rows, startv, out0, out.deep_view(), picked, caps);
                        if R::deterministic() {
                            lemma_walk_extends_det_intro::<T::V, R>(
                                m0,
                                rows,
                                startv,
                                out0,
                                out.deep_view(),
                                picked,
                                caps,
                            );
                        }
                    }
                    return ;
                },
            }
        }
        proof {
            assert(truncated_walk(rows, startv, picked, caps));
            lemma_walk_extends_intro(rows, startv, out0, out.deep_view(), picked, caps);
            if R::deterministic() {
                lemma_walk_extends_det_intro::<T::V, R>(
                    m0,
                    rows,
                    startv,
                    out0,
                    out.deep_view(),
                    picked,
                    caps,
                );
            }
        }
    }

    /// Generates a collection of tokens by the weighted random walk from
    /// the start context, using the given random source. With a
    /// deterministic source the output is the one walk the source's model
    /// state dictates.
    pub fn generate_with_rng<R: RandomSource>(&self, rng: &mut R) -> (r: Vec<T>)
        requires
            self.wf(),
            !self.spec_is_empty(),
        ensures
            possible_walk(self.rows(), all_none(self.order_spec()), r.deep_view()),
            R::deterministic() ==> walk_extends_det::<T::V, R>(
                old(rng).model(),
                self.rows(),
                all_none(self.order_spec()),
                Seq::<T::V>::empty(),
                r.deep_view(),
            ),
    {
        let mut out: Vec<T> = Vec::new();
        let start = Self::sentinel_key(self.order);
        proof {
            assert(out.deep_view() =~= Seq::<T::V>::empty());
        }
        self.walk_from(rng, start, &mut out);
        proof {
            let (picked, caps) = choose|picked: Seq<Option<T::V>>, caps: Seq<nat>|
                (walk_trace(self.rows(), all_none(self.order_spec()), picked, caps)
                    || truncated_walk(self.rows(), all_none(self.order_spec()), picked, caps))
                    && out.deep_view() == Seq::<T::V>::empty() + reals(picked);
            assert(out.deep_view() =~= reals(picked));
        }
        out
    }

    /// Generates a collection of tokens from the chain, using the default
    /// random source.
    pub fn generate(&self) -> (r: Vec<T>)
        requires
            self.wf(),
            !self.spec_is_empty(),
        ensures
            possible_walk(self.rows(), all_none(self.order_spec()), r.deep_view()),
    {
        let mut rng = EntropySource::new();
        self.generate_with_rng(&mut rng)
    }

    /// Generates a collection of tokens from the chain, with the draws
    /// fixed by a 64-bit seed.
    pub fn generate_with_seed(&self, seed: u64) -> (r: Vec<T>)
        requires
            self.wf(),
            !self.spec_is_empty(),
        ensures
            possible_walk(self.rows(), all_none(self.order_spec()), r.deep_view()),
    {
        let mut rng = SeededSource::new(seed);
        self.generate_with_rng(&mut rng)
    }

    /// Generates a collection of tokens starting with the given token,
    /// using the given random source. Returns an empty collection if the
    /// token was never observed in starting position.
    pub fn generate_from_token_with_rng<R: RandomSource>(&self, token: T, rng: &mut R) -> (r: Vec<
        T,
    >)
        requires
            self.wf(),
        ensures
            ({
                let skey = seed_key(self.order_spec(), token.deep_view());
                &&& key_index(self.rows(), skey) < 0 ==> r.deep_view() == Seq::<T::V>::empty()
                &&& key_index(self.rows(), skey) >= 0 ==> exists|w: Seq<T::V>|
                    possible_walk(self.rows(), skey, w) && r.deep_view() == seq![
                        token.deep_view(),
                    ] + w
                &&& R::deterministic() && key_index(self.rows(), skey) >= 0
                    ==> walk_extends_det::<T::V, R>(
                    old(rng).model(),
                    self.rows(),
                    skey,
                    seq![token.deep_view()],
                    r.deep_view(),
                )
            }),
    {
        let ghost n = self.order_spec();
        let ghost tv = token.deep_view();
        let mut key = Self::sentinel_key(self.order - 1);
        key.push(Some(token.token_clone()));
        proof {
            assert forall|y: int| 0 <= y < key@.len() implies key.deep_view()[y] == seed_key(
                n,
                tv,
            )[y] by {
                assert(key.deep_view()[y] == key@[y].deep_view());
            }
            assert(key.deep_view() =~= seed_key(n, tv));
        }
        match self.find_key(&key) {
            None => {
                let r: Vec<T> = Vec::new();
                proof {
                    assert(r.deep_view() =~= Seq::<T::V>::empty());
                }
                r
            },
            Some(i) => {
                let ghost rows = self.rows();
                proof {
                    lemma_key_index_spec(rows, seed_key(n, tv));
                    assert(seed_key(n, tv).last() is Some);
                    assert(all_none::<T::V>(n)[n - 1] is None);
                    assert(rows[i as int].0 != all_none::<T::V>(n));
                    assert(rows_table(rows, seed_key(n, tv)) == rows[i as int].1);
                }
                let mut out: Vec<T> = Vec::new();
                out.push(token);
                proof {
                    assert(out.deep_view() =~= seq![tv]);
                }
                self.walk_from(rng, key, &mut out);
                proof {
                    let (picked, caps) = choose|picked: Seq<Option<T::V>>, caps: Seq<nat>|
                        (walk_trace(rows, seed_key(n, tv), picked, caps) || truncated_walk(
                            rows,
                            seed_key(n, tv),
                            picked,
                            caps,
                        )) && out.deep_view() == seq![tv] + reals(picked);
                    assert(possible_walk(rows, seed_key(n, tv), reals(picked)));
                }
                out
            },
        }
    }

    /// Generates a collection of tokens starting with the given seed
    /// sequence, using the given random source. The seeds are consumed one
    /// at a time; as soon as one is not a recorded transition from the
    /// context reached so far, the accepted prefix is returned as it
    /// stands. Once all seeds are accepted, ordinary generation continues
    /// from the context they reached.
    pub fn generate_from_tokens_with_rng<R: RandomSource>(&self, tokens: Vec<T>, rng: &mut R) -> (r:
        Vec<T>)
        requires
            self.wf(),
        ensures
            ({
                let n = self.order_spec();
                let toksv = tokens.deep_view();
                let hold = seed_prefix_len_from(self.rows(), n, toksv, 0);
                &&& hold < toksv.len() ==> r.deep_view() == toksv.take(hold)
                &&& hold == toksv.len() ==> {
                    let k = seeds_key(n, toksv, hold);
                    &&& rows_table(self.rows(), k).len() == 0 ==> r.deep_view() == toksv
                    &&& rows_table(self.rows(), k).len() > 0 ==> exists|w: Seq<T::V>|
                        possible_walk(self.rows(), k, w) && r.deep_view() == toksv + w
                    &&& R::deterministic() && rows_table(self.rows(), k).len() > 0
                        ==> walk_extends_det::<T::V, R>(
                        old(rng).model(),
                        self.rows(),
                        k,
                        toksv,
                        r.deep_view(),
                    )
                }
            }),
    {
        let ghost n = self.order_spec();
        let ghost toksv = tokens.deep_view();
        let ghost rows = self.rows();
        let mut out: Vec<T> = Vec::new();
        let mut curs = Self::sentinel_key(self.order);
        let mut i: usize = 0;
        let klen = tokens.len();
        proof {
            assert(curs.deep_view() == seeds_key(n, toksv, 0));
            assert(out.deep_view() =~= toksv.take(0));
        }
        while i < klen
            invariant
                i <= klen,
                klen == toksv.len(),
                self.wf(),
                rows == self.rows(),
                n == self.order_spec(),
                toksv == tokens.deep_view(),
                klen == tokens.len(),
                curs.deep_view() == seeds_key(n, toksv, i as int),
                key_index(rows, curs.deep_view()) >= 0,
                out.deep_view() == toksv.take(i as int),
                out.len() == i,
                seed_prefix_len_from(rows, n, toksv, i as int) == seed_prefix_len_from(
                    rows,
                    n,
                    toksv,
                    0,
                ),
            decreases klen - i,
        {
            let ghost cursv = curs.deep_view();
            let ki: usize = match self.find_key(&curs) {
                Some(x) => x,
                None => {
                    proof {
                        assert(false);
                    }
                    0
                },
            };
            let ghost tseq = rows[ki as int].1;
            proof {
                lemma_key_index_spec(rows, cursv);
                let e0 = self.entries@[ki as int];
                assert(rows[ki as int] == (e0.key.deep_view(), e0.table.deep_view()));
                assert(rows_table(rows, cursv) == tseq);
                assert(toksv[i as int] == tokens@[i as int].deep_view());
            }
            let probe: Option<T> = Some(tokens[i].token_clone());
            proof {
                assert(probe.deep_view() == Some(toksv[i as int]));
            }
            match self.entries[ki].table.find_slot(&probe) {
                Some(si) => {
                    let mut nk: Vec<Option<T>> = Vec::new();
                    let mut x: usize = 1;
                    while x < curs.len()
                        invariant
                            1 <= x <= curs.len(),
                            nk.len() == x - 1,
                            cursv == curs.deep_view(),
                            forall|y: int|
                                0 <= y < x - 1 ==> (#[trigger] nk@[y]).deep_view() == cursv[y + 1],
                        decreases curs.len() - x,
                    {
                        nk.push(slot_clone(&curs[x]));
                        x += 1;
                        proof {
                            assert(cursv[x - 1] == curs@[x - 1].deep_view());
                        }
                    }
                    nk.push(Some(tokens[i].token_clone()));
                    out.push(tokens[i].token_clone());
                    curs = nk;
                    proof {
                        let sv = Some(toksv[i as int]);
                        assert(seed_step_ok(rows, n, toksv, i as int));
                        assert forall|y: int| 0 <= y < curs@.len() implies curs.deep_view()[y]
                            == shift_key(cursv, sv)[y] by {
                            assert(curs.deep_view()[y] == curs@[y].deep_view());
                            assert(toksv[i as int] == tokens@[i as int].deep_view());
                        }
                        assert(curs.deep_view() =~= shift_key(cursv, sv));
                        assert(curs.deep_view() == seeds_key(n, toksv, i as int + 1));
                        // the accepted transition's successor has a row
                        lemma_slot_index_spec(tseq, sv);
                        assert(tseq[slot_index(tseq, sv)].0 == sv);
                        assert(key_index(rows, shift_key(rows[ki as int].0, sv)) >= 0);
                        // output bookkeeping
                        assert forall|y: int| 0 <= y < out@.len() implies out.deep_view()[y]
                            == toksv.take(i as int + 1)[y] by {
                            assert(out.deep_view()[y] == out@[y].deep_view());
                            if y < out@.len() - 1 {
                                assert(out@[y].deep_view() == toksv.take(i as int)[y]);
                            } else {
                                assert(out@[y].deep_view() == toksv[i as int]);
                            }
                        }
                        assert(out.deep_view() =~= toksv.take(i as int + 1));
                    }
                    i += 1;
                },
                None => {
                    proof {
                        assert(slot_index(rows_table(rows, seeds_key(n, toksv, i as int)), Some(
                            toksv[i as int],
                        )) < 0);
                        assert(!seed_step_ok(rows, n, toksv, i as int));
                        assert(seed_prefix_len_from(rows, n, toksv, i as int) == i as int);
                    }
                    return out;
                },
            }
        }
        proof {
            assert(seed_prefix_len_from(rows, n, toksv, klen as int) == klen as int);
            assert(out.deep_view() =~= toksv);
        }
        let ki: usize = match self.find_key(&curs) {
            Some(x) => x,
            None => {
                proof {
                    assert(false);
                }
                0
            },
        };
        proof {
            lemma_key_index_spec(rows, curs.deep_view());
            let e0 = self.entries@[ki as int];
            assert(rows[ki as int] == (e0.key.deep_view(), e0.table.deep_view()));
            assert(rows_table(rows, curs.deep_view()) == rows[ki as int].1);
        }
        if self.entries[ki].table.len() == 0 {
            return out;
        }
        self.walk_from(rng, curs, &mut out);
        proof {
            let k = seeds_key(n, toksv, klen as int);
            let (picked, caps) = choose|picked: Seq<Option<T::V>>, caps: Seq<nat>|
                (walk_trace(rows, k, picked, caps) || truncated_walk(rows, k, picked, caps))
                    && out.deep_view() == toksv + reals(picked);
            assert(possible_walk(rows, k, reals(picked)));
        }
        out
    }

    /// Generates a collection of tokens starting with the given seed
    /// sequence, using the default random source. Seeds stop being
    /// consumed at the first one that is not a recorded transition; the
    /// accepted prefix is then returned as it stands.
    pub fn generate_from_tokens(&self, tokens: Vec<T>) -> (r: Vec<T>)
        requires
            self.wf(),
        ensures
            ({
                let n = self.order_spec();
                let toksv = tokens.deep_view();
                let hold = seed_prefix_len_from(self.rows(), n, toksv, 0);
                &&& hold < toksv.len() ==> r.deep_view() == toksv.take(hold)
                &&& hold == toksv.len() ==> {
                    let k = seeds_key(n, toksv, hold);
                    &&& rows_table(self.rows(), k).len() == 0 ==> r.deep_view() == toksv
                    &&& rows_table(self.rows(), k).len() > 0 ==> exists|w: Seq<T::V>|
                        possible_walk(self.rows(), k, w) && r.deep_view() == toksv + w
                }
            }),
    {
        let mut rng = EntropySource::new();
        self.generate_from_tokens_with_rng(tokens, &mut rng)
    }

    /// Generates a collection of tokens starting with the given token,
    /// using the default random source. Returns an empty collection if the
    /// token was never observed in starting position.
    pub fn generate_from_token(&self, token: T) -> (r: Vec<T>)
        requires
            self.wf(),
        ensures
            ({
                let skey = seed_key(self.order_spec(), token.deep_view());
                &&& key_index(self.rows(), skey) < 0 ==> r.deep_view() == Seq::<T::V>::empty()
                &&& key_index(self.rows(), skey) >= 0 ==> exists|w: Seq<T::V>|
                    possible_walk(self.rows(), skey, w) && r.deep_view() == seq![
                        token.deep_view(),
                    ] + w
            }),
    {
        let mut rng = EntropySource::new();
        self.generate_from_token_with_rng(token, &mut rng)
    }

    /// Generates a collection of tokens starting with the given token,
    /// with the draws fixed by a 64-bit seed. Returns an empty collection
    /// if the token was never observed in starting position.
    pub fn generate_from_token_with_seed(&self, token: T, seed: u64) -> (r: Vec<T>)
        requires
            self.wf(),
        ensures
            ({
                let skey = seed_key(self.order_spec(), token.deep_view());
                &&& key_index(self.rows(), skey) < 0 ==> r.deep_view() == Seq::<T::V>::empty()
                &&& key_index(self.rows(), skey) >= 0 ==> exists|w: Seq<T::V>|
                    possible_walk(self.rows(), skey, w) && r.deep_view() == seq![
                        token.deep_view(),
                    ] + w
            }),
    {
        let mut rng = SeededSource::new(seed);
        self.generate_from_token_with_rng(token, &mut rng)
    }
}

impl<T: Chainable> Chain<T> {
    /// Merges one row of another chain into this one: the key is created
    /// if absent, and every slot count of `t2` is added into its table.
    fn merge_row(&mut self, key: Vec<Option<T>>, t2: &Table<T>)
        requires
            forall|a: int, b: int|
                0 <= a < old(self).rows().len() && 0 <= b < old(self).rows().len() && a != b
                    ==> old(self).rows()[a].0 != old(self).rows()[b].0,
            forall|i: int|
                0 <= i < old(self).rows().len() ==> table_wf(#[trigger] old(self).rows()[i].1),
            t2.wf(),
            grand_total(old(self).rows()) + table_total(t2.deep_view()) <= usize::MAX,
            t2.deep_view().len() == 0 ==> key_index(old(self).rows(), key.deep_view()) >= 0,
        ensures
            final(self).order_spec() == old(self).order_spec(),
            final(self).dist() == old(self).dist().insert(
                key.deep_view(),
                table_plus(
                    chain_get(old(self).dist(), key.deep_view()),
                    table_as_map(t2.deep_view()),
                ),
            ),
            grand_total(final(self).rows()) == grand_total(old(self).rows()) + table_total(
                t2.deep_view(),
            ),
            key_index(final(self).rows(), key.deep_view()) >= 0,
            old(self).rows().len() <= final(self).rows().len() <= old(self).rows().len() + 1,
            forall|i: int|
                0 <= i < old(self).rows().len() ==> (#[trigger] final(self).rows()[i]).0 == old(
                    self,
                ).rows()[i].0 && final(self).rows()[i].1.len() >= old(self).rows()[i].1.len(),
            forall|i: int|
                0 <= i < final(self).rows().len() ==> table_wf(#[trigger] final(self).rows()[i].1),
            forall|a: int, b: int|
                0 <= a < final(self).rows().len() && 0 <= b < final(self).rows().len() && a != b
                    ==> final(self).rows()[a].0 != final(self).rows()[b].0,
            final(self).rows().len() > old(self).rows().len() ==> final(self).rows().last().0
                == key.deep_view() && final(self).rows().last().1.len() == t2.deep_view().len(),
            forall|i: int, j: int|
                0 <= i < final(self).rows().len() && 0 <= j < final(self).rows()[i].1.len() ==> (i
                    < old(self).rows().len() && old(self).rows()[i].0 == final(self).rows()[i].0
                    && slot_index(
                    old(self).rows()[i].1,
                    (#[trigger] final(self).rows()[i].1[j]).0,
                ) >= 0) || (final(self).rows()[i].0 == key.deep_view() && slot_index(
                    t2.deep_view(),
                    final(self).rows()[i].1[j].0,
                ) >= 0),
    {
        let ghost rows0 = self.rows();
        let ghost kv = key.deep_view();
        let ghost ot = t2.deep_view();
        proof {
            lemma_key_index_spec(rows0, kv);
            lemma_rows_map_contains(rows0, kv);
        }
        match self.find_key(&key) {
            Some(i) => {
                let ghost iv = i as int;
                let ghost t1 = rows0[iv].1;
                proof {
                    let e0 = self.entries@[iv];
                    assert(rows0[iv] == (e0.key.deep_view(), e0.table.deep_view()));
                    lemma_grand_ge_row(rows0, iv);
                }
                let e = &mut self.entries[i];
                e.table.absorb(t2);
                proof {
                    let rows2 = self.rows();
                    assert(forall|x: int| 0 <= x < rows0.len() && x != iv ==> rows2[x] == rows0[x]);
                    assert(rows2[iv].0 == rows0[iv].0);
                    assert(rows2 =~= rows0.update(iv, (rows0[iv].0, rows2[iv].1)));
                    lemma_rows_map_value(rows0, iv);
                    lemma_rows_map_update(rows0, iv, rows2[iv].1);
                    assert(table_as_map(rows2[iv].1) == table_plus(table_as_map(t1), table_as_map(
                        ot,
                    )));
                    assert(self.dist() == rows_as_map(rows0).insert(
                        kv,
                        table_plus(chain_get(rows_as_map(rows0), kv), table_as_map(ot)),
                    ));
                    lemma_grand_update(rows0, iv, rows2[iv].1);
                    lemma_key_index_nonneg(rows2, kv);
                    assert(rows2[iv].0 == kv);
                    assert forall|i2: int, j2: int|
                        0 <= i2 < rows2.len() && 0 <= j2 < rows2[i2].1.len() implies (i2
                        < rows0.len() && rows0[i2].0 == rows2[i2].0 && slot_index(
                        rows0[i2].1,
                        (rows2[i2].1[j2]).0,
                    ) >= 0) || (rows2[i2].0 == kv && slot_index(ot, rows2[i2].1[j2].0) >= 0) by {
                        if i2 != iv {
                            assert(rows2[i2] == rows0[i2]);
                            crate::table::lemma_slot_index_nonneg(
                                rows0[i2].1,
                                rows2[i2].1[j2].0,
                            );
                        }
                    }
                }
            },
            None => {
                let table = t2.duplicate();
                self.entries.push(ChainEntry { key, table });
                proof {
                    let rows2 = self.rows();
                    assert(rows2 =~= rows0.push((kv, ot)));
                    lemma_rows_map_push(rows0, kv, ot);
                    assert(!rows_as_map(rows0).dom().contains(kv));
                    assert(table_plus(Map::<Option<T::V>, nat>::empty(), table_as_map(ot)) =~=
                        table_as_map(ot)) by {
                        assert(forall|s: Option<T::V>|
                            table_get(Map::<Option<T::V>, nat>::empty(), s) == 0);
                    }
                    assert(self.dist() == rows_as_map(rows0).insert(
                        kv,
                        table_plus(chain_get(rows_as_map(rows0), kv), table_as_map(ot)),
                    ));
                    lemma_grand_push(rows0, kv, ot);
                    lemma_key_index_nonneg(rows2, kv);
                    assert(rows2[rows0.len() as int].0 == kv);
                    assert forall|a: int, b: int|
                        0 <= a < rows2.len() && 0 <= b < rows2.len() && a != b implies rows2[a].0
                        != rows2[b].0 by {
                        if a < rows0.len() && b == rows0.len() {
                            assert(rows0[a].0 != kv);
                        } else if b < rows0.len() && a == rows0.len() {
                            assert(rows0[b].0 != kv);
                        }
                    }
                    assert forall|i2: int, j2: int|
                        0 <= i2 < rows2.len() && 0 <= j2 < rows2[i2].1.len() implies (i2
                        < rows0.len() && rows0[i2].0 == rows2[i2].0 && slot_index(
                        rows0[i2].1,
                        (rows2[i2].1[j2]).0,
                    ) >= 0) || (rows2[i2].0 == kv && slot_index(ot, rows2[i2].1[j2].0) >= 0) by {
                        if i2 < rows0.len() {
                            crate::table::lemma_slot_index_nonneg(
                                rows0[i2].1,
                                rows2[i2].1[j2].0,
                            );
                        } else {
                            crate::table::lemma_slot_index_nonneg(ot, rows2[i2].1[j2].0);
                        }
                    }
                }
            },
        }
    }

    /// Merges two chains into this one, consuming the other. Both chains
    /// must be of the same order. Every context key of the other chain is
    /// created here if absent, and every observation count is added in:
    /// the result is the pointwise sum of the two models.
    pub fn merge(&mut self, other: Chain<T>)
        requires
            old(self).wf(),
            other.wf(),
            old(self).order_spec() == other.order_spec(),
            grand_total(old(self).rows()) + grand_total(other.rows()) <= usize::MAX,
        ensures
            final(self).wf(),
            final(self).order_spec() == old(self).order_spec(),
            final(self).dist() == chain_plus(old(self).dist(), other.dist()),
            grand_total(final(self).rows()) == grand_total(old(self).rows()) + grand_total(
                other.rows(),
            ),
    {
        let ghost n = self.order_spec();
        let ghost orows = other.rows();
        let ghost dist0 = self.dist();
        let ghost g0 = grand_total(self.rows());
        let m = other.entries.len();
        let mut oi: usize = 0;
        proof {
            assert(orows.subrange(0, 0) =~= Seq::<
                (Seq<Option<T::V>>, Seq<(Option<T::V>, nat)>),
            >::empty());
            lemma_empty_models::<T::V>();
        }
        while oi < m
            invariant
                oi <= m,
                m == orows.len(),
                orows == other.rows(),
                wf_rows(orows, n),
                n == self.order_spec(),
                dist0 == rows_as_map(old(self).rows()),
                g0 == grand_total(old(self).rows()),
                g0 + grand_total(orows) <= usize::MAX,
                forall|a: int, b: int|
                    0 <= a < self.rows().len() && 0 <= b < self.rows().len() && a != b
                        ==> self.rows()[a].0 != self.rows()[b].0,
                forall|i: int| 0 <= i < self.rows().len() ==> (#[trigger] self.rows()[i]).0.len()
                    == n,
                forall|i: int| 0 <= i < self.rows().len() ==> table_wf(#[trigger] self.rows()[i].1),
                key_index(self.rows(), all_none::<T::V>(n)) >= 0,
                forall|i: int|
                    0 <= i < self.rows().len() && (#[trigger] self.rows()[i]).0 != all_none::<
                        T::V,
                    >(n) ==> self.rows()[i].1.len() > 0,
                forall|i: int, j: int|
                    0 <= i < self.rows().len() && 0 <= j < self.rows()[i].1.len()
                        && (#[trigger] self.rows()[i].1[j]).0 is Some ==> key_index(
                        self.rows(),
                        shift_key(self.rows()[i].0, self.rows()[i].1[j].0),
                    ) >= 0 || key_index(orows, shift_key(self.rows()[i].0, self.rows()[i].1[j].0))
                        >= 0,
                forall|j: int| 0 <= j < oi ==> key_index(self.rows(), (#[trigger] orows[j]).0) >= 0,
                forall|k: Seq<Option<T::V>>|
                    #![trigger self.dist().dom().contains(k)]
                    self.dist().dom().contains(k) <==> (dist0.dom().contains(k) || 0 <= key_index(
                        orows,
                        k,
                    ) < oi),
                forall|k: Seq<Option<T::V>>|
                    #![trigger self.dist()[k]]
                    0 <= key_index(orows, k) < oi ==> self.dist()[k] == table_plus(
                        chain_get(dist0, k),
                        table_as_map(orows[key_index(orows, k)].1),
                    ),
                forall|k: Seq<Option<T::V>>|
                    #![trigger self.dist()[k]]
                    !(0 <= key_index(orows, k) < oi) && dist0.dom().contains(k) ==> self.dist()[k]
                        == dist0[k],
                grand_total(self.rows()) == g0 + grand_total(orows.subrange(0, oi as int)),
            decreases m - oi,
        {
            let ghost rows1 = self.rows();
            let ghost kv = orows[oi as int].0;
            let ghost ot = orows[oi as int].1;
            proof {
                let oe = other.entries@[oi as int];
                assert(orows[oi as int] == (oe.key.deep_view(), oe.table.deep_view()));
                lemma_grand_prefix_step(orows, oi as int);
                lemma_grand_prefix_le(orows, oi as int + 1);
                lemma_key_index_spec(orows, kv);
                lemma_key_index_nonneg(orows, kv);
                assert(key_index(orows, kv) == oi as int) by {
                    let w = key_index(orows, kv);
                    assert(orows[oi as int].0 == kv);
                    if w != oi as int {
                        assert(orows[w].0 == orows[oi as int].0);
                        assert(false);
                    }
                }
                if ot.len() == 0 {
                    assert(kv == all_none::<T::V>(n));
                }
            }
            let key = key_clone(&other.entries[oi].key);
            self.merge_row(key, &other.entries[oi].table);
            proof {
                let rows2 = self.rows();
                lemma_rows_extend_presence(rows1, rows2);
                assert(key_index(rows2, kv) >= 0);
                // the successor obligation, transition by transition
                assert forall|i2: int, j2: int|
                    0 <= i2 < rows2.len() && 0 <= j2 < rows2[i2].1.len() && (rows2[i2].1[j2]).0
                        is Some implies key_index(
                    rows2,
                    shift_key(rows2[i2].0, rows2[i2].1[j2].0),
                ) >= 0 || key_index(orows, shift_key(rows2[i2].0, rows2[i2].1[j2].0)) >= 0 by {
                    let s0 = rows2[i2].1[j2].0;
                    if i2 < rows1.len() && rows1[i2].0 == rows2[i2].0 && slot_index(
                        rows1[i2].1,
                        s0,
                    ) >= 0 {
                        let sj = slot_index(rows1[i2].1, s0);
                        lemma_slot_index_spec(rows1[i2].1, s0);
                        assert(rows1[i2].1[sj].0 == s0);
                        assert(key_index(rows1, shift_key(rows1[i2].0, s0)) >= 0 || key_index(
                            orows,
                            shift_key(rows1[i2].0, s0),
                        ) >= 0);
                    } else {
                        assert(rows2[i2].0 == kv && slot_index(ot, s0) >= 0);
                        let sj = slot_index(ot, s0);
                        lemma_slot_index_spec(ot, s0);
                        assert(ot[sj].0 == s0);
                        assert(key_index(orows, shift_key(orows[oi as int].0, ot[sj].0)) >= 0);
                    }
                }
                // the nonempty-table obligation
                assert forall|i2: int|
                    0 <= i2 < rows2.len() && (rows2[i2]).0 != all_none::<T::V>(n) implies
                    rows2[i2].1.len() > 0 by {
                    if i2 < rows1.len() {
                        assert(rows2[i2].0 == rows1[i2].0);
                        assert(rows2[i2].1.len() >= rows1[i2].1.len());
                    } else {
                        assert(rows2[i2].1.len() == ot.len());
                        assert(ot.len() > 0) by {
                            if ot.len() == 0 {
                                assert(key_index(rows1, kv) >= 0);
                                lemma_key_index_spec(rows1, kv);
                                assert(false);
                            }
                        }
                    }
                }
                // key lengths
                assert forall|i2: int| 0 <= i2 < rows2.len() implies (rows2[i2]).0.len() == n by {
                    if i2 >= rows1.len() {
                        assert(rows2[i2].0 == kv);
                    }
                }
                // the distribution bookkeeping
                assert forall|k: Seq<Option<T::V>>|
                    self.dist().dom().contains(k) <==> (dist0.dom().contains(k) || 0 <= key_index(
                        orows,
                        k,
                    ) < oi + 1) by {
                    if k != kv {
                        assert(self.dist().dom().contains(k) == rows_as_map(rows1).dom().contains(
                            k,
                        ));
                        if 0 <= key_index(orows, k) {
                            lemma_key_index_spec(orows, k);
                            assert(orows[key_index(orows, k)].0 == k);
                        }
                    }
                }
                assert forall|k: Seq<Option<T::V>>|
                    0 <= key_index(orows, k) < oi + 1 implies self.dist()[k] == table_plus(
                    chain_get(dist0, k),
                    table_as_map(orows[key_index(orows, k)].1),
                ) by {
                    if k == kv {
                        assert(chain_get(rows_as_map(rows1), kv) == chain_get(dist0, kv)) by {
                            if dist0.dom().contains(kv) {
                                assert(rows_as_map(rows1)[kv] == dist0[kv]);
                            } else {
                                assert(!rows_as_map(rows1).dom().contains(kv));
                            }
                        }
                    } else {
                        lemma_key_index_spec(orows, k);
                        assert(orows[key_index(orows, k)].0 == k);
                        assert(self.dist()[k] == rows_as_map(rows1)[k]);
                    }
                }
                assert forall|k: Seq<Option<T::V>>|
                    !(0 <= key_index(orows, k) < oi + 1) && dist0.dom().contains(k) implies
                    self.dist()[k] == dist0[k] by {
                    assert(k != kv);
                    assert(self.dist()[k] == rows_as_map(rows1)[k]);
                }
            }
            oi += 1;
        }
        proof {
            let rowsf = self.rows();
            assert(orows.subrange(0, m as int) =~= orows);
            assert(grand_total(rowsf) <= usize::MAX);
            // successors now all resolved: every key of the other chain is
            // present here
            assert forall|i2: int, j2: int|
                0 <= i2 < rowsf.len() && 0 <= j2 < rowsf[i2].1.len() && (rowsf[i2].1[j2]).0
                    is Some implies key_index(
                rowsf,
                shift_key(rowsf[i2].0, rowsf[i2].1[j2].0),
            ) >= 0 by {
                let sh = shift_key(rowsf[i2].0, rowsf[i2].1[j2].0);
                if key_index(orows, sh) >= 0 {
                    lemma_key_index_spec(orows, sh);
                    assert(key_index(rowsf, orows[key_index(orows, sh)].0) >= 0);
                }
            }
            assert(self.wf());
            // the final distribution is the pointwise sum
            let goal = chain_plus(dist0, rows_as_map(orows));
            assert forall|k: Seq<Option<T::V>>| #[trigger]
                self.dist().dom().contains(k) == goal.dom().contains(k) by {
                lemma_rows_map_contains(orows, k);
                lemma_key_index_nonneg(orows, k);
                lemma_key_index_spec(orows, k);
            }
            assert forall|k: Seq<Option<T::V>>| goal.dom().contains(k) implies self.dist()[k]
                =~= goal[k] by {
                lemma_rows_map_contains(orows, k);
                lemma_key_index_nonneg(orows, k);
                lemma_key_index_spec(orows, k);
                if 0 <= key_index(orows, k) {
                    lemma_rows_map_value(orows, key_index(orows, k));
                } else {
                    assert(self.dist()[k] == dist0[k]);
                    assert(chain_get(rows_as_map(orows), k) == Map::<Option<T::V>, nat>::empty());
                    assert(self.dist()[k] =~= table_plus(
                        chain_get(dist0, k),
                        chain_get(rows_as_map(orows), k),
                    ));
                }
            }
            assert(self.dist() =~~= goal);
        }
    }
}

/// An infinite iterator over a Markov chain: each step generates one
/// fresh collection of tokens, and exhaustion is never signalled.
pub struct InfiniteChainIterator<'a, T: Chainable> {
    chain: &'a Chain<T>,
}

/// A sized iterator over a Markov chain: exactly as many generated
/// collections as it was created for, then exhaustion.
pub struct SizedChainIterator<'a, T: Chainable> {
    chain: &'a Chain<T>,
    size: usize,
}

impl<'a, T: Chainable> InfiniteChainIterator<'a, T> {
    /// The chain being iterated.
    pub closed spec fn chain_ref(self) -> Chain<T> {
        *self.chain
    }

    /// Generates the next collection; there always is one.
    pub fn next(&mut self) -> (r: Option<Vec<T>>)
        requires
            old(self).chain_ref().wf(),
            !old(self).chain_ref().spec_is_empty(),
        ensures
            final(self).chain_ref() == old(self).chain_ref(),
            r is Some,
            possible_walk(
                old(self).chain_ref().rows(),
                all_none(old(self).chain_ref().order_spec()),
                r->0.deep_view(),
            ),
    {
        Some(self.chain.generate())
    }

    /// The iterator never exhausts: no upper bound on what remains.
    pub fn size_hint(&self) -> (r: (usize, Option<usize>))
        ensures
            r.0 == 0,
            r.1 is None,
    {
        (0, None)
    }
}

impl<'a, T: Chainable> SizedChainIterator<'a, T> {
    /// The chain being iterated.
    pub closed spec fn chain_ref(self) -> Chain<T> {
        *self.chain
    }

    /// How many collections remain to be generated.
    pub closed spec fn remaining(self) -> nat {
        self.size as nat
    }

    /// Generates the next collection while any remain, and signals
    /// exhaustion afterwards.
    pub fn next(&mut self) -> (r: Option<Vec<T>>)
        requires
            old(self).remaining() > 0 ==> old(self).chain_ref().wf() && !old(
                self,
            ).chain_ref().spec_is_empty(),
        ensures
            final(self).chain_ref() == old(self).chain_ref(),
            old(self).remaining() == 0 ==> r is None && final(self).remaining() == 0,
            old(self).remaining() > 0 ==> {
                &&& r is Some
                &&& final(self).remaining() == old(self).remaining() - 1
                &&& possible_walk(
                    old(self).chain_ref().rows(),
                    all_none(old(self).chain_ref().order_spec()),
                    r->0.deep_view(),
                )
            },
    {
        if self.size > 0 {
            self.size = self.size - 1;
            Some(self.chain.generate())
        } else {
            None
        }
    }

    /// How many collections remain: the exact count.
    pub fn size_hint(&self) -> (r: (usize, Option<usize>))
        ensures
            r.0 == self.remaining(),
            r.1 == Some(r.0),
    {
        (self.size, Some(self.size))
    }

    /// Generates all remaining collections at once.
    pub fn collect(self) -> (r: Vec<Vec<T>>)
        requires
            self.remaining() > 0 ==> self.chain_ref().wf() && !self.chain_ref().spec_is_empty(),
        ensures
            r.len() == self.remaining(),
            forall|i: int|
                0 <= i < r.len() ==> possible_walk(
                    self.chain_ref().rows(),
                    all_none(self.chain_ref().order_spec()),
                    (#[trigger] r@[i]).deep_view(),
                ),
    {
        let mut r: Vec<Vec<T>> = Vec::new();
        let mut i: usize = 0;
        while i < self.size
            invariant
                i <= self.size,
                r.len() == i,
                self.size > 0 ==> self.chain_ref().wf() && !self.chain_ref().spec_is_empty(),
                forall|j: int|
                    0 <= j < i ==> possible_walk(
                        self.chain_ref().rows(),
                        all_none(self.chain_ref().order_spec()),
                        (#[trigger] r@[j]).deep_view(),
                    ),
            decreases self.size - i,
        {
            r.push(self.chain.generate());
            i += 1;
        }
        r
    }
}

impl<T: Chainable> Chain<T> {
    /// Produces an infinite iterator of generated token collections.
    pub fn iter(&self) -> (r: InfiniteChainIterator<'_, T>)
        ensures
            r.chain_ref() == *self,
    {
        InfiniteChainIterator { chain: self }
    }

    /// Produces an iterator for the specified number of generated token
    /// collections.
    pub fn iter_for(&self, size: usize) -> (r: SizedChainIterator<'_, T>)
        ensures
            r.chain_ref() == *self,
            r.remaining() == size,
    {
        SizedChainIterator { chain: self, size }
    }
}

impl<T: Chainable> Chain<T> {
    /// Compares two chains as models: the same order and the same map
    /// from context key to distribution, whatever order the rows were
    /// inserted in.
    pub fn eq_chain(&self, other: &Chain<T>) -> (r: bool)
        ensures
            self.wf() && other.wf() ==> r == (self.order_spec() == other.order_spec()
                && self.dist() == other.dist()),
    {
        let ghost r1 = self.rows();
        let ghost r2 = other.rows();
        if self.order != other.order {
            return false;
        }
        if self.entries.len() != other.entries.len() {
            proof {
                if self.wf() && other.wf() {
                    lemma_rows_map_dom_len(r1);
                    lemma_rows_map_dom_len(r2);
                    if rows_as_map(r1) == rows_as_map(r2) {
                        assert(false);
                    }
                }
            }
            return false;
        }
        let mut i: usize = 0;
        while i < self.entries.len()
            invariant
                i <= self.entries.len(),
                r1 == self.rows(),
                r2 == other.rows(),
                r1.len() == r2.len(),
                self.wf() && other.wf() ==> forall|j: int|
                    0 <= j < i ==> rows_as_map(r2).dom().contains((#[trigger] r1[j]).0)
                        && rows_as_map(r2)[r1[j].0] == rows_as_map(r1)[r1[j].0],
            decreases self.entries.len() - i,
        {
            proof {
                let e0 = self.entries@[i as int];
                assert(r1[i as int] == (e0.key.deep_view(), e0.table.deep_view()));
            }
            match other.find_key(&self.entries[i].key) {
                None => {
                    proof {
                        if self.wf() && other.wf() {
                            lemma_key_index_spec(r2, r1[i as int].0);
                            lemma_rows_map_contains(r2, r1[i as int].0);
                            lemma_rows_map_value(r1, i as int);
                            if rows_as_map(r1) == rows_as_map(r2) {
                                assert(rows_as_map(r2).dom().contains(r1[i as int].0));
                                assert(false);
                            }
                        }
                    }
                    return false;
                },
                Some(j) => {
                    proof {
                        lemma_key_index_spec(r2, r1[i as int].0);
                        let e2 = other.entries@[j as int];
                        assert(r2[j as int] == (e2.key.deep_view(), e2.table.deep_view()));
                    }
                    if !self.entries[i].table.table_eq(&other.entries[j].table) {
                        proof {
                            if self.wf() && other.wf() {
                                lemma_rows_map_value(r1, i as int);
                                lemma_rows_map_value(r2, j as int);
                                if rows_as_map(r1) == rows_as_map(r2) {
                                    assert(false);
                                }
                            }
                        }
                        return false;
                    }
                    proof {
                        if self.wf() && other.wf() {
                            lemma_rows_map_value(r1, i as int);
                            lemma_rows_map_value(r2, j as int);
                            let k0 = r1[i as int].0;
                            assert(rows_as_map(r2)[k0] == rows_as_map(r1)[k0]);
                        }
                    }
                },
            }
            i += 1;
        }
        proof {
            if self.wf() && other.wf() {
                lemma_rows_map_dom_len(r1);
                lemma_rows_map_dom_len(r2);
                assert forall|k: Seq<Option<T::V>>|
                    rows_as_map(r1).dom().contains(k) implies rows_as_map(r2).dom().contains(
                    k,
                ) by {
                    lemma_rows_map_contains(r1, k);
                    let j = choose|j: int| 0 <= j < r1.len() && r1[j].0 == k;
                    assert(rows_as_map(r2).dom().contains(r1[j].0));
                }
                vstd::set_lib::lemma_subset_equality(
                    rows_as_map(r1).dom(),
                    rows_as_map(r2).dom(),
                );
                assert forall|k: Seq<Option<T::V>>|
                    rows_as_map(r1).dom().contains(k) implies rows_as_map(r1)[k] == rows_as_map(
                    r2,
                )[k] by {
                    lemma_rows_map_contains(r1, k);
                    let j = choose|j: int| 0 <= j < r1.len() && r1[j].0 == k;
                    assert(rows_as_map(r2)[r1[j].0] == rows_as_map(r1)[r1[j].0]);
                }
                assert(rows_as_map(r1) =~= rows_as_map(r2));
            }
        }
        true
    }
}

/// The plain-data image of a chain: its order and every row as plain
/// values, the shape persistence stores and restores.
pub struct ChainParts<T: Chainable> {
    pub order: usize,
    pub entries: Vec<(Vec<Option<T>>, Vec<(Option<T>, usize)>)>,
}

impl<T: Chainable> Chain<T> {
    /// Decides at run time whether the stored state is well-formed.
    fn check_state(&self) -> (r: bool)
        ensures
            r == wf_rows(self.rows(), self.order_spec()),
    {
        let ghost rows = self.rows();
        let ghost n = self.order_spec();
        if self.order < 1 {
            return false;
        }
        let m = self.entries.len();
        let sk = Self::sentinel_key(self.order);
        let mut i: usize = 0;
        while i < m
            invariant
                i <= m,
                m == rows.len(),
                rows == self.rows(),
                n == self.order_spec(),
                self.order >= 1,
                sk.deep_view() == all_none::<T::V>(n),
                forall|x: int| 0 <= x < i ==> (#[trigger] rows[x]).0.len() == n,
                forall|x: int| 0 <= x < i ==> table_wf(#[trigger] rows[x].1),
                forall|x: int|
                    0 <= x < i && (#[trigger] rows[x]).0 != all_none::<T::V>(n) ==> rows[x].1.len()
                        > 0,
                forall|x: int, y: int|
                    0 <= x < i && 0 <= y < i && x != y ==> rows[x].0 != rows[y].0,
            decreases m - i,
        {
            let ghost e0 = self.entries@[i as int];
            proof {
                assert(rows[i as int] == (e0.key.deep_view(), e0.table.deep_view()));
            }
            if self.entries[i].key.len() != self.order {
                return false;
            }
            let mut y: usize = 0;
            while y < i
                invariant
                    y <= i < m,
                    m == rows.len(),
                    rows == self.rows(),
                    rows[i as int].0 == self.entries@[i as int].key.deep_view(),
                    forall|x: int| 0 <= x < y ==> rows[x].0 != rows[i as int].0,
                decreases i - y,
            {
                proof {
                    assert(rows[y as int].0 == self.entries@[y as int].key.deep_view());
                }
                if key_eq(&self.entries[i].key, &self.entries[y].key) {
                    return false;
                }
                y += 1;
            }
            let tlen = self.entries[i].table.len();
            let mut a: usize = 0;
            while a < tlen
                invariant
                    a <= tlen,
                    i < m,
                    m == rows.len(),
                    rows == self.rows(),
                    tlen == rows[i as int].1.len(),
                    rows[i as int].1 == self.entries@[i as int].table.deep_view(),
                    forall|x: int| 0 <= x < a ==> (#[trigger] rows[i as int].1[x]).1 >= 1,
                    forall|x: int, y2: int|
                        0 <= x < a && 0 <= y2 < a && x != y2
                            ==> rows[i as int].1[x].0 != rows[i as int].1[y2].0,
                decreases tlen - a,
            {
                if self.entries[i].table.count_at(a) < 1 {
                    return false;
                }
                let mut b: usize = 0;
                while b < a
                    invariant
                        b <= a < tlen,
                        i < m,
                        m == rows.len(),
                        rows == self.rows(),
                        tlen == rows[i as int].1.len(),
                        rows[i as int].1 == self.entries@[i as int].table.deep_view(),
                        forall|x: int|
                            0 <= x < b ==> rows[i as int].1[x].0 != rows[i as int].1[a as int].0,
                    decreases a - b,
                {
                    if slot_eq(self.entries[i].table.slot_at(a), self.entries[i].table.slot_at(b)) {
                        return false;
                    }
                    b += 1;
                }
                a += 1;
            }
            if tlen == 0 {
                if !key_eq(&self.entries[i].key, &sk) {
                    return false;
                }
            }
            i += 1;
        }
        // the start context must have a row
        match self.find_key(&sk) {
            None => {
                return false;
            },
            Some(_) => {},
        }
        // every real transition must lead to a context that has a row
        let mut i: usize = 0;
        while i < m
            invariant
                i <= m,
                m == rows.len(),
                rows == self.rows(),
                n == self.order_spec(),
                self.order >= 1,
                forall|x: int| 0 <= x < m ==> (#[trigger] rows[x]).0.len() == n,
                forall|x: int, j: int|
                    0 <= x < i && 0 <= j < rows[x].1.len() && (#[trigger] rows[x].1[j]).0 is Some
                        ==> key_index(rows, shift_key(rows[x].0, rows[x].1[j].0)) >= 0,
            decreases m - i,
        {
            let ghost e0 = self.entries@[i as int];
            proof {
                assert(rows[i as int] == (e0.key.deep_view(), e0.table.deep_view()));
            }
            let tlen = self.entries[i].table.len();
            let mut j: usize = 0;
            while j < tlen
                invariant
                    j <= tlen,
                    i < m,
                    m == rows.len(),
                    rows == self.rows(),
                    n == self.order_spec(),
                    self.order >= 1,
                    rows[i as int].0.len() == n,
                    tlen == rows[i as int].1.len(),
                    rows[i as int].0 == self.entries@[i as int].key.deep_view(),
                    rows[i as int].1 == self.entries@[i as int].table.deep_view(),
                    forall|x: int|
                        0 <= x < j && (#[trigger] rows[i as int].1[x]).0 is Some ==> key_index(
                            rows,
                            shift_key(rows[i as int].0, rows[i as int].1[x].0),
                        ) >= 0,
                decreases tlen - j,
            {
                let is_real = match self.entries[i].table.slot_at(j) {
                    Some(_) => true,
                    None => false,
                };
                if is_real {
                    // build the shifted context and look it up
                    let mut nk: Vec<Option<T>> = Vec::new();
                    let mut x: usize = 1;
                    let klen = self.entries[i].key.len();
                    while x < klen
                        invariant
                            1 <= x <= klen,
                            i < m,
                            m == rows.len(),
                            nk.len() == x - 1,
                            rows == self.rows(),
                            klen == self.entries@[i as int].key.deep_view().len(),
                            rows[i as int].0 == self.entries@[i as int].key.deep_view(),
                            forall|y2: int|
                                0 <= y2 < x - 1
                                    ==> (#[trigger] nk@[y2]).deep_view()
                                    == rows[i as int].0[y2 + 1],
                        decreases klen - x,
                    {
                        nk.push(slot_clone(&self.entries[i].key[x]));
                        x += 1;
                        proof {
                            assert(rows[i as int].0[x - 1] == self.entries@[i as int].key@[x
                                - 1].deep_view());
                        }
                    }
                    nk.push(slot_clone(self.entries[i].table.slot_at(j)));
                    proof {
                        assert forall|y2: int| 0 <= y2 < nk@.len() implies nk.deep_view()[y2]
                            == shift_key(rows[i as int].0, rows[i as int].1[j as int].0)[y2] by {
                            assert(nk.deep_view()[y2] == nk@[y2].deep_view());
                        }
                        assert(nk.deep_view() =~= shift_key(
                            rows[i as int].0,
                            rows[i as int].1[j as int].0,
                        ));
                    }
                    match self.find_key(&nk) {
                        None => {
                            return false;
                        },
                        Some(_) => {},
                    }
                }
                j += 1;
            }
            i += 1;
        }
        // the total observation count must fit in a machine word
        let mut acc: usize = 0;
        let mut i: usize = 0;
        proof {
            assert(rows.subrange(0, 0) =~= Seq::<
                (Seq<Option<T::V>>, Seq<(Option<T::V>, nat)>),
            >::empty());
            lemma_empty_models::<T::V>();
        }
        while i < m
            invariant
                i <= m,
                m == rows.len(),
                rows == self.rows(),
                n == self.order_spec(),
                acc as nat == grand_total(rows.subrange(0, i as int)),
            decreases m - i,
        {
            let ghost e0 = self.entries@[i as int];
            proof {
                assert(rows[i as int] == (e0.key.deep_view(), e0.table.deep_view()));
            }
            let tlen = self.entries[i].table.len();
            let mut j: usize = 0;
            proof {
                assert(rows[i as int].1.subrange(0, 0) =~= Seq::<(Option<T::V>, nat)>::empty());
            }
            while j < tlen
                invariant
                    j <= tlen,
                    i < m,
                    m == rows.len(),
                    rows == self.rows(),
                    tlen == rows[i as int].1.len(),
                    rows[i as int].1 == self.entries@[i as int].table.deep_view(),
                    acc as nat == grand_total(rows.subrange(0, i as int)) + table_total(
                        rows[i as int].1.subrange(0, j as int),
                    ),
                decreases tlen - j,
            {
                proof {
                    crate::table::lemma_total_prefix_step(rows[i as int].1, j as int);
                }
                let c = self.entries[i].table.count_at(j);
                match acc.checked_add(c) {
                    Some(v) => {
                        acc = v;
                    },
                    None => {
                        proof {
                            // the partial sum already exceeds a machine
                            // word, so the grand total does too
                            crate::table::lemma_total_prefix_le(rows[i as int].1, j as int + 1);
                            lemma_grand_prefix_step(rows, i as int);
                            lemma_grand_prefix_le(rows, i as int + 1);
                        }
                        return false;
                    },
                }
                j += 1;
            }
            proof {
                assert(rows[i as int].1.subrange(0, tlen as int) =~= rows[i as int].1);
                lemma_grand_prefix_step(rows, i as int);
            }
            i += 1;
        }
        proof {
            assert(rows.subrange(0, m as int) =~= rows);
            lemma_key_index_spec(rows, all_none::<T::V>(n));
        }
        true
    }

    /// How many observations the chain has recorded in all: the sum of
    /// every count in every table.
    pub fn total_observations(&self) -> (r: usize)
        requires
            self.wf(),
        ensures
            r as nat == grand_total(self.rows()),
    {
        let ghost rows = self.rows();
        let mut acc: usize = 0;
        let mut i: usize = 0;
        proof {
            assert(rows.subrange(0, 0) =~= Seq::<
                (Seq<Option<T::V>>, Seq<(Option<T::V>, nat)>),
            >::empty());
            lemma_empty_models::<T::V>();
        }
        while i < self.entries.len()
            invariant
                i <= self.entries.len(),
                rows == self.rows(),
                self.wf(),
                acc as nat == grand_total(rows.subrange(0, i as int)),
            decreases self.entries.len() - i,
        {
            let ghost e0 = self.entries@[i as int];
            proof {
                assert(rows[i as int] == (e0.key.deep_view(), e0.table.deep_view()));
                lemma_grand_ge_row(rows, i as int);
                lemma_grand_prefix_step(rows, i as int);
                lemma_grand_prefix_le(rows, i as int + 1);
            }
            let t = self.entries[i].table.total();
            acc = acc + t;
            i += 1;
        }
        proof {
            assert(rows.subrange(0, rows.len() as int) =~= rows);
        }
        acc
    }

    /// Exports the chain's state as plain values: its order and every row.
    pub fn to_parts(&self) -> (d: ChainParts<T>)
        ensures
            d.order == self.order_spec(),
            parts_rows(d.entries.deep_view()) == self.rows(),
    {
        let ghost rows = self.rows();
        let mut entries: Vec<(Vec<Option<T>>, Vec<(Option<T>, usize)>)> = Vec::new();
        let mut i: usize = 0;
        while i < self.entries.len()
            invariant
                i <= self.entries.len(),
                rows == self.rows(),
                entries.len() == i,
                forall|x: int|
                    0 <= x < i ==> (#[trigger] entries@[x]).0.deep_view() == rows[x].0
                        && entries@[x].1.deep_view().map_values(
                        |e: (Option<T::V>, usize)| (e.0, e.1 as nat),
                    ) == rows[x].1,
            decreases self.entries.len() - i,
        {
            let ghost e0 = self.entries@[i as int];
            proof {
                assert(rows[i as int] == (e0.key.deep_view(), e0.table.deep_view()));
            }
            let key = key_clone(&self.entries[i].key);
            let mut t: Vec<(Option<T>, usize)> = Vec::new();
            let tlen = self.entries[i].table.len();
            let mut j: usize = 0;
            while j < tlen
                invariant
                    j <= tlen,
                    i < self.entries.len(),
                    rows == self.rows(),
                    tlen == rows[i as int].1.len(),
                    rows[i as int].1 == self.entries@[i as int].table.deep_view(),
                    t.len() == j,
                    forall|x: int|
                        0 <= x < j
                            ==> ((#[trigger] t@[x]).0.deep_view(), t@[x].1 as nat)
                            == rows[i as int].1[x],
                decreases tlen - j,
            {
                let s = slot_clone(self.entries[i].table.slot_at(j));
                let c = self.entries[i].table.count_at(j);
                t.push((s, c));
                j += 1;
            }
            proof {
                assert forall|x: int| 0 <= x < t@.len() implies (#[trigger] t.deep_view()[x].0,
                    t.deep_view()[x].1 as nat) == rows[i as int].1[x] by {
                    assert(t.deep_view()[x] == t@[x].deep_view());
                }
                assert(t.deep_view().map_values(|e: (Option<T::V>, usize)| (e.0, e.1 as nat)) =~=
                    rows[i as int].1);
            }
            entries.push((key, t));
            i += 1;
        }
        let d = ChainParts { order: self.order, entries };
        proof {
            assert forall|x: int| 0 <= x < d.entries@.len() implies parts_rows(
                d.entries.deep_view(),
            )[x] == rows[x] by {
                assert(d.entries.deep_view()[x] == d.entries@[x].deep_view());
                let dx = d.entries@[x];
                assert(dx.deep_view() == (dx.0.deep_view(), dx.1.deep_view()));
            }
            assert(parts_rows(d.entries.deep_view()) =~= rows);
        }
        d
    }

    /// Restores a chain from exported parts. Succeeds exactly when the
    /// parts describe a well-formed chain state; the restored chain then
    /// holds that state, row for row.
    pub fn from_parts(parts: &ChainParts<T>) -> (r: Option<Chain<T>>)
        ensures
            r is Some <==> wf_rows(parts_rows(parts.entries.deep_view()), parts.order as nat),
            r is Some ==> {
                &&& r->0.wf()
                &&& r->0.order_spec() == parts.order
                &&& r->0.rows() == parts_rows(parts.entries.deep_view())
            },
    {
        let ghost prows = parts_rows(parts.entries.deep_view());
        let mut entries: Vec<ChainEntry<T>> = Vec::new();
        let mut i: usize = 0;
        while i < parts.entries.len()
            invariant
                i <= parts.entries.len(),
                prows == parts_rows(parts.entries.deep_view()),
                prows.len() == parts.entries.len(),
                entries.len() == i,
                forall|x: int| 0 <= x < i ==> (#[trigger] entries@[x]).deep_view() == prows[x],
            decreases parts.entries.len() - i,
        {
            let ghost p0 = parts.entries@[i as int];
            proof {
                assert(parts.entries.deep_view()[i as int] == p0.deep_view());
                assert(p0.deep_view() == (p0.0.deep_view(), p0.1.deep_view()));
            }
            let key = key_clone(&parts.entries[i].0);
            let mut tentries: Vec<TableEntry<T>> = Vec::new();
            let tlen = parts.entries[i].1.len();
            let mut j: usize = 0;
            while j < tlen
                invariant
                    j <= tlen,
                    i < parts.entries.len(),
                    tlen == parts.entries@[i as int].1.len(),
                    tentries.len() == j,
                    forall|x: int|
                        0 <= x < j
                            ==> (#[trigger] tentries@[x]).deep_view()
                            == (parts.entries@[i as int].1@[x].0.deep_view(), parts.entries@[i as int].1@[x].1 as nat),
                decreases tlen - j,
            {
                let s = slot_clone(&parts.entries[i].1[j].0);
                let c = parts.entries[i].1[j].1;
                tentries.push(TableEntry { slot: s, count: c });
                j += 1;
            }
            let table = Table { entries: tentries };
            let e = ChainEntry { key, table };
            proof {
                assert forall|x: int| 0 <= x < e.table.deep_view().len() implies
                    e.table.deep_view()[x] == prows[i as int].1[x] by {
                    assert(e.table.deep_view()[x] == e.table.entries@[x].deep_view());
                    let pi = parts.entries@[i as int].1;
                    assert(pi.deep_view()[x] == pi@[x].deep_view());
                }
                assert(e.table.deep_view() =~= prows[i as int].1);
                assert(e.deep_view() == prows[i as int]);
            }
            entries.push(e);
            i += 1;
        }
        let c = Chain { entries, order: parts.order };
        proof {
            assert forall|x: int| 0 <= x < c.rows().len() implies c.rows()[x] == prows[x] by {
                assert(c.rows()[x] == c.entries@[x].deep_view());
            }
            assert(c.rows() =~= prows);
        }
        if c.check_state() {
            Some(c)
        } else {
            None
        }
    }
}

impl<T: Chainable> PartialEq for Chain<T> {
    /// Two chains are equal when they have the same order and model the
    /// same map from context key to distribution.
    fn eq(&self, other: &Chain<T>) -> (r: bool) {
        self.eq_chain(other)
    }
}

impl<T: Chainable> vstd::std_specs::cmp::PartialEqSpecImpl for Chain<T> {
    open spec fn obeys_eq_spec() -> bool {
        false
    }

    open spec fn eq_spec(&self, other: &Chain<T>) -> bool {
        self.order_spec() == other.order_spec() && self.dist() == other.dist()
    }
}

impl<T: Chainable> Default for Chain<T> {
    /// Constructs a new Markov chain of order 1.
    fn default() -> (r: Chain<T>)
        ensures
            r.wf(),
            r.order_spec() == 1,
            r.spec_is_empty(),
    {
        Chain::new()
    }
}

} // verus!
