//! The distribution table stored for one context: next-token slots in
//! insertion order, each with the number of times it was observed, and the
//! weighted draw over them.

use crate::model::{
    pick_in, slot_index, table_add, table_as_map, table_get, table_plus, table_total, table_wf,
};
use crate::token::{slot_clone, slot_eq, Chainable};
use vstd::prelude::*;

verus! {

/// One stored observation: a next-token slot and how often it was seen.
#[derive(Clone, Debug)]
pub struct TableEntry<T: Chainable> {
    pub slot: Option<T>,
    pub count: usize,
}

impl<T: Chainable> DeepView for TableEntry<T> {
    type V = (Option<T::V>, nat);

    open spec fn deep_view(&self) -> Self::V {
        (self.slot.deep_view(), self.count as nat)
    }
}

/// A distribution table: slots in insertion order with observation counts.
#[derive(Clone, Debug)]
pub struct Table<T: Chainable> {
    pub entries: Vec<TableEntry<T>>,
}

impl<T: Chainable> DeepView for Table<T> {
    type V = Seq<(Option<T::V>, nat)>;

    open spec fn deep_view(&self) -> Self::V {
        self.entries.deep_view()
    }
}

/// Splitting a table splits its total.
pub proof fn lemma_total_split<V>(a: Seq<(Option<V>, nat)>, b: Seq<(Option<V>, nat)>)
    ensures
        table_total(a + b) == table_total(a) + table_total(b),
    decreases b.len(),
{
    if b.len() == 0 {
        assert(a + b =~= a);
    } else {
        lemma_total_split(a, b.drop_last());
        assert((a + b).drop_last() =~= a + b.drop_last());
        assert((a + b).last() == b.last());
    }
}

/// A prefix never sums to more than the whole table.
pub proof fn lemma_total_prefix_le<V>(t: Seq<(Option<V>, nat)>, i: int)
    requires
        0 <= i <= t.len(),
    ensures
        table_total(t.subrange(0, i)) <= table_total(t),
{
    assert(t =~= t.subrange(0, i) + t.subrange(i, t.len() as int));
    lemma_total_split(t.subrange(0, i), t.subrange(i, t.len() as int));
}

/// Extending a prefix by one entry adds that entry's count.
pub proof fn lemma_total_prefix_step<V>(t: Seq<(Option<V>, nat)>, i: int)
    requires
        0 <= i < t.len(),
    ensures
        table_total(t.subrange(0, i + 1)) == table_total(t.subrange(0, i)) + t[i].1,
{
    assert(t.subrange(0, i + 1).drop_last() =~= t.subrange(0, i));
    assert(t.subrange(0, i + 1).last() == t[i]);
}

/// The total of the one-entry slice at `i` is that entry's count.
pub proof fn lemma_total_singleton<V>(t: Seq<(Option<V>, nat)>, i: int)
    requires
        0 <= i < t.len(),
    ensures
        table_total(t.subrange(i, i + 1)) == t[i].1,
{
    assert(table_total(Seq::<(Option<V>, nat)>::empty()) == 0);
    assert(t.subrange(i, i + 1).drop_last() =~= Seq::<(Option<V>, nat)>::empty());
    assert(t.subrange(i, i + 1).last() == t[i]);
}

/// What a successful or failed slot search means: a found index holds the
/// slot, no earlier index does; a miss means no index holds it.
pub proof fn lemma_slot_index_spec<V>(t: Seq<(Option<V>, nat)>, s: Option<V>)
    ensures
        slot_index(t, s) >= 0 ==> {
            &&& slot_index(t, s) < t.len()
            &&& t[slot_index(t, s)].0 == s
            &&& forall|j: int| 0 <= j < slot_index(t, s) ==> t[j].0 != s
        },
        slot_index(t, s) < 0 ==> forall|j: int| 0 <= j < t.len() ==> t[j].0 != s,
    decreases t.len(),
{
    if t.len() == 0 {
    } else if t.first().0 == s {
    } else {
        let d = t.drop_first();
        lemma_slot_index_spec(d, s);
        let r = slot_index(d, s);
        if r >= 0 {
            assert(d[r] == t[r + 1]);
            assert forall|j: int| 0 <= j < r + 1 implies t[j].0 != s by {
                if j > 0 {
                    assert(d[j - 1] == t[j]);
                }
            }
        } else {
            assert forall|j: int| 0 <= j < t.len() implies t[j].0 != s by {
                if j > 0 {
                    assert(d[j - 1] == t[j]);
                }
            }
        }
    }
}

/// A slot stored at any entry is found by `slot_index`.
pub proof fn lemma_slot_index_nonneg<V>(t: Seq<(Option<V>, nat)>, s: Option<V>)
    ensures
        (slot_index(t, s) >= 0) <==> exists|j: int| 0 <= j < t.len() && t[j].0 == s,
{
    lemma_slot_index_spec(t, s);
    if slot_index(t, s) >= 0 {
        assert(t[slot_index(t, s)].0 == s);
    }
}

/// The weighted draw lands on a stored slot whenever the cap is below the
/// total.
pub proof fn lemma_pick_in_found<V>(t: Seq<(Option<V>, nat)>, cap: nat)
    requires
        cap < table_total(t),
    ensures
        slot_index(t, pick_in(t, cap)) >= 0,
    decreases t.len(),
{
    assert(t =~= t.subrange(0, 1) + t.drop_first());
    lemma_total_split(t.subrange(0, 1), t.drop_first());
    lemma_total_singleton(t, 0);
    if cap < t.first().1 {
    } else {
        lemma_pick_in_found(t.drop_first(), (cap - t.first().1) as nat);
    }
}

impl<T: Chainable> Table<T> {
    /// A table is well-formed when its slots are distinct and every count
    /// is at least one.
    pub open spec fn wf(self) -> bool {
        table_wf(self.deep_view())
    }

    /// Constructs an empty table.
    pub fn new() -> (r: Table<T>)
        ensures
            r.deep_view() == Seq::<(Option<T::V>, nat)>::empty(),
            r.wf(),
    {
        let r = Table { entries: Vec::new() };
        assert(r.deep_view() =~= Seq::<(Option<T::V>, nat)>::empty());
        r
    }

    /// How many distinct slots the table holds.
    pub fn len(&self) -> (r: usize)
        ensures
            r == self.deep_view().len(),
    {
        self.entries.len()
    }

    /// The slot stored at position `i`.
    pub fn slot_at(&self, i: usize) -> (r: &Option<T>)
        requires
            i < self.deep_view().len(),
        ensures
            r.deep_view() == self.deep_view()[i as int].0,
    {
        &self.entries[i].slot
    }

    /// The count stored at position `i`.
    pub fn count_at(&self, i: usize) -> (r: usize)
        requires
            i < self.deep_view().len(),
        ensures
            r as nat == self.deep_view()[i as int].1,
    {
        self.entries[i].count
    }

    /// The position at which `s` is stored, if it is.
    pub fn find_slot(&self, s: &Option<T>) -> (r: Option<usize>)
        ensures
            match r {
                Some(i) => i == slot_index(self.deep_view(), s.deep_view()),
                None => slot_index(self.deep_view(), s.deep_view()) < 0,
            },
    {
        proof {
            lemma_slot_index_spec(self.deep_view(), s.deep_view());
        }
        let ghost si = slot_index(self.deep_view(), s.deep_view());
        let mut i: usize = 0;
        while i < self.entries.len()
            invariant
                i <= self.entries.len(),
                si == slot_index(self.deep_view(), s.deep_view()),
                si >= 0 ==> si < self.deep_view().len() && self.deep_view()[si].0
                    == s.deep_view() && (forall|j: int|
                    0 <= j < si ==> self.deep_view()[j].0 != s.deep_view()),
                si < 0 ==> forall|j: int|
                    0 <= j < self.deep_view().len() ==> self.deep_view()[j].0 != s.deep_view(),
                forall|j: int| 0 <= j < i ==> self.deep_view()[j].0 != s.deep_view(),
            decreases self.entries.len() - i,
        {
            if slot_eq(&self.entries[i].slot, s) {
                proof {
                    assert(self.deep_view()[i as int].0 == self.entries@[i as int].slot.deep_view());
                }
                return Some(i);
            }
            i += 1;
        }
        None
    }

    /// Records `c` more observations of slot `s`: an existing entry is
    /// increased in place, a missing slot is appended with count `c`.
    pub fn record(&mut self, s: Option<T>, c: usize)
        requires
            old(self).wf(),
            c >= 1,
            table_total(old(self).deep_view()) + c <= usize::MAX,
        ensures
            final(self).deep_view() == table_add(old(self).deep_view(), s.deep_view(), c as nat),
            final(self).wf(),
            table_total(final(self).deep_view()) == table_total(old(self).deep_view()) + c,
            final(self).deep_view().len() >= 1,
    {
        let ghost t0 = self.deep_view();
        let ghost sv = s.deep_view();
        proof {
            lemma_slot_index_spec(t0, sv);
        }
        match self.find_slot(&s) {
            Some(i) => {
                let ghost iv = i as int;
                proof {
                    // the one count is no more than the whole table's total
                    assert(t0 =~= t0.subrange(0, iv) + t0.subrange(iv, t0.len() as int));
                    lemma_total_split(t0.subrange(0, iv), t0.subrange(iv, t0.len() as int));
                    assert(t0.subrange(iv, t0.len() as int) =~= t0.subrange(iv, iv + 1)
                        + t0.subrange(iv + 1, t0.len() as int));
                    lemma_total_split(t0.subrange(iv, iv + 1), t0.subrange(iv + 1, t0.len() as int));
                    lemma_total_singleton(t0, iv);
                    assert(t0[iv].1 <= table_total(t0));
                }
                let e = &mut self.entries[i];
                e.count = e.count + c;
                proof {
                    assert(self.deep_view() =~= table_add(t0, sv, c as nat));
                    lemma_table_add_total(t0, sv, c as nat);
                    lemma_table_add_wf(t0, sv, c as nat);
                }
            },
            None => {
                self.entries.push(TableEntry { slot: s, count: c });
                proof {
                    assert(self.deep_view() =~= table_add(t0, sv, c as nat));
                    lemma_table_add_total(t0, sv, c as nat);
                    lemma_table_add_wf(t0, sv, c as nat);
                }
            },
        }
    }

    /// Absorbs another table: every slot's count from `other` is added
    /// into this table, slots missing here are appended.
    pub fn absorb(&mut self, other: &Table<T>)
        requires
            old(self).wf(),
            other.wf(),
            table_total(old(self).deep_view()) + table_total(other.deep_view()) <= usize::MAX,
        ensures
            final(self).wf(),
            table_as_map(final(self).deep_view()) == table_plus(
                table_as_map(old(self).deep_view()),
                table_as_map(other.deep_view()),
            ),
            table_total(final(self).deep_view()) == table_total(old(self).deep_view())
                + table_total(other.deep_view()),
            final(self).deep_view().len() >= old(self).deep_view().len(),
            other.deep_view().len() > 0 ==> final(self).deep_view().len() > 0,
            forall|j: int|
                0 <= j < final(self).deep_view().len() ==> slot_index(
                    old(self).deep_view(),
                    (#[trigger] final(self).deep_view()[j]).0,
                ) >= 0 || slot_index(other.deep_view(), final(self).deep_view()[j].0) >= 0,
    {
        let ghost t0 = self.deep_view();
        let ghost ot = other.deep_view();
        let ghost m0 = table_as_map(t0);
        let n = other.entries.len();
        let mut j: usize = 0;
        proof {
            assert(ot.subrange(0, 0) =~= Seq::<(Option<T::V>, nat)>::empty());
            assert(table_total(Seq::<(Option<T::V>, nat)>::empty()) == 0);
            assert forall|x: int|
                0 <= x < self.deep_view().len() implies slot_index(
                t0,
                (self.deep_view()[x]).0,
            ) >= 0 || slot_index(ot, self.deep_view()[x].0) >= 0 by {
                lemma_slot_index_nonneg(t0, t0[x].0);
            }
            assert forall|s: Option<T::V>|
                table_as_map(self.deep_view()).dom().contains(s) <==> (m0.dom().contains(s) || 0
                    <= slot_index(ot, s) < 0) by {}
        }
        while j < n
            invariant
                j <= n,
                n == ot.len(),
                t0 == old(self).deep_view(),
                ot == other.deep_view(),
                m0 == table_as_map(t0),
                table_wf(t0),
                table_wf(ot),
                table_total(t0) + table_total(ot) <= usize::MAX,
                self.wf(),
                table_total(self.deep_view()) == table_total(t0) + table_total(
                    ot.subrange(0, j as int),
                ),
                self.deep_view().len() >= t0.len(),
                j > 0 ==> self.deep_view().len() > 0,
                forall|s: Option<T::V>|
                    #![trigger table_as_map(self.deep_view()).dom().contains(s)]
                    table_as_map(self.deep_view()).dom().contains(s) <==> (m0.dom().contains(s)
                        || 0 <= slot_index(ot, s) < j),
                forall|s: Option<T::V>|
                    #![trigger table_get(table_as_map(self.deep_view()), s)]
                    table_get(table_as_map(self.deep_view()), s) == table_get(m0, s) + (if 0
                        <= slot_index(ot, s) < j {
                        ot[slot_index(ot, s)].1
                    } else {
                        0
                    }),
                forall|x: int|
                    0 <= x < self.deep_view().len() ==> slot_index(
                        t0,
                        (#[trigger] self.deep_view()[x]).0,
                    ) >= 0 || slot_index(ot, self.deep_view()[x].0) >= 0,
            decreases n - j,
        {
            let ghost tc = self.deep_view();
            let ghost sv = ot[j as int].0;
            proof {
                lemma_total_prefix_step(ot, j as int);
                lemma_total_prefix_le(ot, j as int + 1);
                lemma_slot_index_spec(ot, sv);
                assert(slot_index(ot, sv) == j as int);
                assert(other.deep_view()[j as int].0 == other.entries@[j as int].slot.deep_view());
                assert(other.deep_view()[j as int].1 == other.entries@[j as int].count as nat);
                assert(ot[j as int].1 >= 1);
            }
            let s = slot_clone(&other.entries[j].slot);
            let c = other.entries[j].count;
            self.record(s, c);
            j += 1;
            proof {
                lemma_table_add_map(tc, sv, c as nat);
                lemma_slot_index_spec(tc, sv);
                assert forall|s2: Option<T::V>|
                    table_as_map(self.deep_view()).dom().contains(s2) <==> (m0.dom().contains(s2)
                        || 0 <= slot_index(ot, s2) < j) by {
                    if s2 != sv {
                        assert(table_as_map(self.deep_view()).dom().contains(s2)
                            == table_as_map(tc).dom().contains(s2));
                        if 0 <= slot_index(ot, s2) {
                            lemma_slot_index_spec(ot, s2);
                            assert(ot[slot_index(ot, s2)].0 == s2);
                        }
                    }
                }
                assert forall|s2: Option<T::V>|
                    table_get(table_as_map(self.deep_view()), s2) == table_get(m0, s2) + (if 0
                        <= slot_index(ot, s2) < j {
                        ot[slot_index(ot, s2)].1
                    } else {
                        0
                    }) by {
                    if s2 == sv {
                        assert(table_get(table_as_map(self.deep_view()), s2) == table_get(
                            table_as_map(tc),
                            s2,
                        ) + c);
                    } else {
                        assert(table_get(table_as_map(self.deep_view()), s2) == table_get(
                            table_as_map(tc),
                            s2,
                        ));
                        if 0 <= slot_index(ot, s2) {
                            lemma_slot_index_spec(ot, s2);
                            assert(ot[slot_index(ot, s2)].0 == s2);
                        }
                    }
                }
                assert forall|x: int|
                    0 <= x < self.deep_view().len() implies slot_index(
                    t0,
                    (self.deep_view()[x]).0,
                ) >= 0 || slot_index(ot, self.deep_view()[x].0) >= 0 by {
                    lemma_slot_index_spec(tc, sv);
                    if slot_index(tc, sv) >= 0 {
                        assert(self.deep_view()[x] == tc.update(
                            slot_index(tc, sv),
                            (sv, (tc[slot_index(tc, sv)].1 + c) as nat),
                        )[x]);
                    } else {
                        if x < tc.len() {
                            assert(self.deep_view()[x] == tc[x]);
                        } else {
                            assert(self.deep_view()[x].0 == sv);
                        }
                    }
                }
            }
        }
        proof {
            assert(ot.subrange(0, n as int) =~= ot);
            let mfin = table_as_map(self.deep_view());
            let goal = table_plus(m0, table_as_map(ot));
            assert forall|s: Option<T::V>| #[trigger]
                mfin.dom().contains(s) == goal.dom().contains(s) by {
                lemma_table_map_contains(ot, s);
                lemma_slot_index_nonneg(ot, s);
                lemma_slot_index_spec(ot, s);
            }
            assert forall|s: Option<T::V>| goal.dom().contains(s) implies mfin[s] == goal[s] by {
                lemma_table_map_contains(ot, s);
                lemma_slot_index_spec(ot, s);
                lemma_slot_index_nonneg(ot, s);
                if slot_index(ot, s) >= 0 {
                    lemma_table_map_value(ot, slot_index(ot, s));
                }
                assert(table_get(mfin, s) == table_get(m0, s) + table_get(table_as_map(ot), s));
            }
            assert(mfin =~= goal);
        }
    }

    /// Compares two tables as distributions: the same slots with the same
    /// counts, in any order.
    pub fn table_eq(&self, other: &Table<T>) -> (r: bool)
        ensures
            self.wf() && other.wf() ==> r == (table_as_map(self.deep_view()) == table_as_map(
                other.deep_view(),
            )),
    {
        let ghost t1 = self.deep_view();
        let ghost t2 = other.deep_view();
        if self.entries.len() != other.entries.len() {
            proof {
                if table_wf(t1) && table_wf(t2) {
                    lemma_table_map_dom_len(t1);
                    lemma_table_map_dom_len(t2);
                    if table_as_map(t1) == table_as_map(t2) {
                        assert(false);
                    }
                }
            }
            return false;
        }
        let mut i: usize = 0;
        while i < self.entries.len()
            invariant
                i <= self.entries.len(),
                t1 == self.deep_view(),
                t2 == other.deep_view(),
                t1.len() == t2.len(),
                table_wf(t1) && table_wf(t2) ==> forall|j: int|
                    0 <= j < i ==> table_as_map(t2).dom().contains((#[trigger] t1[j]).0)
                        && table_as_map(t2)[t1[j].0] == t1[j].1,
            decreases self.entries.len() - i,
        {
            proof {
                assert(t1[i as int] == self.entries@[i as int].deep_view());
            }
            match other.find_slot(&self.entries[i].slot) {
                None => {
                    proof {
                        if table_wf(t1) && table_wf(t2) {
                            lemma_slot_index_spec(t2, t1[i as int].0);
                            lemma_table_map_contains(t2, t1[i as int].0);
                            lemma_table_map_value(t1, i as int);
                            if table_as_map(t1) == table_as_map(t2) {
                                assert(table_as_map(t2).dom().contains(t1[i as int].0));
                                assert(false);
                            }
                        }
                    }
                    return false;
                },
                Some(j) => {
                    proof {
                        lemma_slot_index_spec(t2, t1[i as int].0);
                    }
                    if self.entries[i].count != other.entries[j].count {
                        proof {
                            if table_wf(t1) && table_wf(t2) {
                                lemma_table_map_value(t1, i as int);
                                lemma_table_map_value(t2, j as int);
                                assert(t2[j as int] == other.entries@[j as int].deep_view());
                                if table_as_map(t1) == table_as_map(t2) {
                                    assert(false);
                                }
                            }
                        }
                        return false;
                    }
                    proof {
                        if table_wf(t1) && table_wf(t2) {
                            lemma_table_map_value(t2, j as int);
                            assert(t2[j as int] == other.entries@[j as int].deep_view());
                            assert(table_as_map(t2)[t1[i as int].0] == t1[i as int].1);
                        }
                    }
                },
            }
            i += 1;
        }
        proof {
            if table_wf(t1) && table_wf(t2) {
                lemma_table_map_dom_len(t1);
                lemma_table_map_dom_len(t2);
                assert forall|s: Option<T::V>|
                    table_as_map(t1).dom().contains(s) implies table_as_map(t2).dom().contains(
                    s,
                ) by {
                    lemma_table_map_contains(t1, s);
                    let j = choose|j: int| 0 <= j < t1.len() && t1[j].0 == s;
                    assert(table_as_map(t2).dom().contains(t1[j].0));
                }
                vstd::set_lib::lemma_subset_equality(
                    table_as_map(t1).dom(),
                    table_as_map(t2).dom(),
                );
                assert forall|s: Option<T::V>|
                    table_as_map(t1).dom().contains(s) implies table_as_map(t1)[s]
                    == table_as_map(t2)[s] by {
                    lemma_table_map_contains(t1, s);
                    let j = choose|j: int| 0 <= j < t1.len() && t1[j].0 == s;
                    lemma_table_map_value(t1, j);
                }
                assert(table_as_map(t1) =~= table_as_map(t2));
            }
        }
        true
    }

    /// Copies a table; the copy has the same view as the original.
    pub fn duplicate(&self) -> (r: Table<T>)
        ensures
            r.deep_view() == self.deep_view(),
    {
        let mut entries: Vec<TableEntry<T>> = Vec::new();
        let mut i: usize = 0;
        while i < self.entries.len()
            invariant
                i <= self.entries.len(),
                entries.len() == i,
                forall|j: int|
                    0 <= j < i ==> (#[trigger] entries@[j]).deep_view() == self.deep_view()[j],
            decreases self.entries.len() - i,
        {
            let s = slot_clone(&self.entries[i].slot);
            let c = self.entries[i].count;
            entries.push(TableEntry { slot: s, count: c });
            i += 1;
            proof {
                assert(self.deep_view()[i - 1] == self.entries@[i - 1].deep_view());
            }
        }
        let r = Table { entries };
        proof {
            assert forall|j: int| 0 <= j < r.deep_view().len() implies r.deep_view()[j]
                == self.deep_view()[j] by {
                assert(r.deep_view()[j] == r.entries@[j].deep_view());
            }
            assert(r.deep_view() =~= self.deep_view());
        }
        r
    }

    /// The sum of all counts.
    pub fn total(&self) -> (r: usize)
        requires
            table_total(self.deep_view()) <= usize::MAX,
        ensures
            r as nat == table_total(self.deep_view()),
    {
        let ghost t = self.deep_view();
        let mut acc: usize = 0;
        let mut i: usize = 0;
        proof {
            assert(t.subrange(0, 0) =~= Seq::<(Option<T::V>, nat)>::empty());
        }
        while i < self.entries.len()
            invariant
                i <= self.entries.len(),
                t == self.deep_view(),
                table_total(t) <= usize::MAX,
                acc as nat == table_total(t.subrange(0, i as int)),
            decreases self.entries.len() - i,
        {
            proof {
                lemma_total_prefix_step(t, i as int);
                lemma_total_prefix_le(t, i as int + 1);
            }
            acc = acc + self.entries[i].count;
            i += 1;
        }
        proof {
            assert(t.subrange(0, t.len() as int) =~= t);
        }
        acc
    }

    /// The weighted draw: walks the table in stored order, accumulating
    /// counts, and returns the first slot whose accumulated count exceeds
    /// `cap`.
    pub fn pick(&self, cap: usize) -> (r: Option<T>)
        requires
            (cap as nat) < table_total(self.deep_view()),
        ensures
            r.deep_view() == pick_in(self.deep_view(), cap as nat),
            slot_index(self.deep_view(), r.deep_view()) >= 0,
    {
        proof {
            lemma_pick_in_found(self.deep_view(), cap as nat);
            assert(self.deep_view().subrange(0, self.deep_view().len() as int) =~= self.deep_view());
        }
        self.pick_from(0, cap)
    }

    /// The weighted draw restricted to the entries from position `i` on.
    fn pick_from(&self, i: usize, cap: usize) -> (r: Option<T>)
        requires
            i <= self.deep_view().len(),
            (cap as nat) < table_total(
                self.deep_view().subrange(i as int, self.deep_view().len() as int),
            ),
        ensures
            r.deep_view() == pick_in(
                self.deep_view().subrange(i as int, self.deep_view().len() as int),
                cap as nat,
            ),
        decreases self.deep_view().len() - i,
    {
        let ghost t = self.deep_view();
        let ghost len = t.len() as int;
        let ghost suf = t.subrange(i as int, len);
        proof {
            assert(suf.len() > 0);
            assert(suf =~= suf.subrange(0, 1) + suf.drop_first());
            lemma_total_split(suf.subrange(0, 1), suf.drop_first());
            lemma_total_singleton(suf, 0);
            assert(suf.first() == t[i as int]);
        }
        let n = self.entries.len();
        if cap < self.entries[i].count {
            slot_clone(&self.entries[i].slot)
        } else {
            let c = self.entries[i].count;
            proof {
                assert(suf.drop_first() =~= t.subrange(i as int + 1, len));
            }
            self.pick_from(i + 1, cap - c)
        }
    }
}

/// Recording observations grows the total by exactly what was recorded.
pub proof fn lemma_table_add_total<V>(t: Seq<(Option<V>, nat)>, s: Option<V>, c: nat)
    ensures
        table_total(table_add(t, s, c)) == table_total(t) + c,
{
    lemma_slot_index_spec(t, s);
    let i = slot_index(t, s);
    if i >= 0 {
        let t2 = table_add(t, s, c);
        assert(t =~= t.subrange(0, i) + t.subrange(i, i + 1) + t.subrange(i + 1, t.len() as int));
        assert(t2 =~= t.subrange(0, i) + t2.subrange(i, i + 1) + t.subrange(i + 1, t.len() as int));
        lemma_total_split(t.subrange(0, i), t.subrange(i, i + 1));
        lemma_total_split(
            t.subrange(0, i) + t.subrange(i, i + 1),
            t.subrange(i + 1, t.len() as int),
        );
        lemma_total_split(t.subrange(0, i), t2.subrange(i, i + 1));
        lemma_total_split(
            t.subrange(0, i) + t2.subrange(i, i + 1),
            t.subrange(i + 1, t.len() as int),
        );
        lemma_total_singleton(t, i);
        lemma_total_singleton(t2, i);
    } else {
        assert(table_add(t, s, c).drop_last() =~= t);
        assert(table_add(t, s, c).last() == (s, c));
    }
}

/// Recording observations keeps a table well-formed.
pub proof fn lemma_table_add_wf<V>(t: Seq<(Option<V>, nat)>, s: Option<V>, c: nat)
    requires
        table_wf(t),
        c >= 1,
    ensures
        table_wf(table_add(t, s, c)),
{
    lemma_slot_index_spec(t, s);
}

/// With distinct slots, the map reading has exactly one key per entry.
pub proof fn lemma_table_map_dom_len<V>(t: Seq<(Option<V>, nat)>)
    requires
        forall|a: int, b: int| 0 <= a < t.len() && 0 <= b < t.len() && a != b ==> t[a].0 != t[b].0,
    ensures
        table_as_map(t).dom().finite(),
        table_as_map(t).dom().len() == t.len(),
    decreases t.len(),
{
    if t.len() == 0 {
        assert(table_as_map(t).dom() =~= Set::<Option<V>>::empty());
    } else {
        let d = t.drop_last();
        assert(forall|j: int| 0 <= j < d.len() ==> d[j] == t[j]);
        lemma_table_map_dom_len(d);
        lemma_table_map_contains(d, t.last().0);
        assert(!table_as_map(d).dom().contains(t.last().0));
        assert(table_as_map(t).dom() =~= table_as_map(d).dom().insert(t.last().0));
    }
}

/// A slot is in the map reading of a table exactly when some entry holds it.
pub proof fn lemma_table_map_contains<V>(t: Seq<(Option<V>, nat)>, s: Option<V>)
    ensures
        table_as_map(t).dom().contains(s) <==> exists|j: int| 0 <= j < t.len() && t[j].0 == s,
    decreases t.len(),
{
    if t.len() == 0 {
    } else {
        lemma_table_map_contains(t.drop_last(), s);
        if t.last().0 == s {
            assert(t[t.len() - 1].0 == s);
        } else {
            assert forall|j: int| 0 <= j < t.drop_last().len() implies t.drop_last()[j] == t[j] by {}
            if exists|j: int| 0 <= j < t.len() && t[j].0 == s {
                let j = choose|j: int| 0 <= j < t.len() && t[j].0 == s;
                assert(t.drop_last()[j] == t[j]);
            }
        }
    }
}

/// With distinct slots, the map reading returns the stored count.
pub proof fn lemma_table_map_value<V>(t: Seq<(Option<V>, nat)>, i: int)
    requires
        0 <= i < t.len(),
        forall|a: int, b: int| 0 <= a < t.len() && 0 <= b < t.len() && a != b ==> t[a].0 != t[b].0,
    ensures
        table_as_map(t).dom().contains(t[i].0),
        table_as_map(t)[t[i].0] == t[i].1,
    decreases t.len(),
{
    if i == t.len() - 1 {
    } else {
        assert(t.drop_last()[i] == t[i]);
        lemma_table_map_value(t.drop_last(), i);
        assert(t.last().0 != t[i].0);
    }
}

/// Updating the count stored at one slot updates the map reading at that
/// slot alone.
pub proof fn lemma_table_map_update<V>(t: Seq<(Option<V>, nat)>, i: int, v: nat)
    requires
        0 <= i < t.len(),
        forall|a: int, b: int| 0 <= a < t.len() && 0 <= b < t.len() && a != b ==> t[a].0 != t[b].0,
    ensures
        table_as_map(t.update(i, (t[i].0, v))) == table_as_map(t).insert(t[i].0, v),
    decreases t.len(),
{
    let t2 = t.update(i, (t[i].0, v));
    if i == t.len() - 1 {
        assert(t2.drop_last() =~= t.drop_last());
        assert(table_as_map(t2) =~= table_as_map(t).insert(t[i].0, v));
    } else {
        assert(t2.drop_last() =~= t.drop_last().update(i, (t[i].0, v)));
        assert(t.drop_last()[i] == t[i]);
        lemma_table_map_update(t.drop_last(), i, v);
        assert(t2.last() == t.last());
        assert(t.last().0 != t[i].0);
        assert(table_as_map(t2) =~= table_as_map(t).insert(t[i].0, v));
    }
}

/// The effect of `table_add` on the map reading: the count at `s` grows by
/// `c`, every other slot keeps its count.
pub proof fn lemma_table_add_map<V>(t: Seq<(Option<V>, nat)>, s: Option<V>, c: nat)
    requires
        table_wf(t),
    ensures
        table_as_map(table_add(t, s, c)) == table_as_map(t).insert(
            s,
            (table_get(table_as_map(t), s) + c) as nat,
        ),
{
    lemma_slot_index_spec(t, s);
    lemma_table_map_contains(t, s);
    let i = slot_index(t, s);
    if i >= 0 {
        lemma_table_map_value(t, i);
        lemma_table_map_update(t, i, (t[i].1 + c) as nat);
    } else {
        assert(table_add(t, s, c).drop_last() =~= t);
        assert(table_add(t, s, c).last() == (s, c));
    }
}

} // verus!
