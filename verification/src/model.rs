//! The mathematical model of a chain.
//!
//! A chain state is modelled two ways. The ordered view, `Rows`, is a
//! sequence of rows, each a context key paired with its distribution table
//! in insertion order; generation walks this view, because a weighted draw
//! scans a table in a fixed order. The map view, obtained by `rows_as_map`,
//! forgets the order and is the currency of the `feed` and `merge`
//! contracts.

use vstd::prelude::*;

verus! {

/// The key of `n` sentinels: the context of a sequence not yet started.
pub open spec fn all_none<V>(n: nat) -> Seq<Option<V>> {
    Seq::new(n, |i: int| None)
}

/// Slides a context key one step: drop the oldest slot, append the newest.
pub open spec fn shift_key<V>(k: Seq<Option<V>>, s: Option<V>) -> Seq<Option<V>> {
    k.subrange(1, k.len() as int).push(s)
}

/// One distribution table, in its stored order: slots paired with counts.
pub open spec fn table_slots<V>(t: Seq<(Option<V>, nat)>) -> Seq<Option<V>> {
    t.map_values(|e: (Option<V>, nat)| e.0)
}

/// The sum of all counts in a table.
pub open spec fn table_total<V>(t: Seq<(Option<V>, nat)>) -> nat
    decreases t.len(),
{
    if t.len() == 0 {
        0
    } else {
        table_total(t.drop_last()) + t.last().1
    }
}

/// The index of the first entry of `t` holding slot `s`, or -1.
pub open spec fn slot_index<V>(t: Seq<(Option<V>, nat)>, s: Option<V>) -> int
    decreases t.len(),
{
    if t.len() == 0 {
        -1
    } else if t.first().0 == s {
        0
    } else {
        let r = slot_index(t.drop_first(), s);
        if r < 0 {
            -1
        } else {
            r + 1
        }
    }
}

/// A table as a map from slot to count; later entries win, so on tables
/// with distinct slots this is the evident reading.
pub open spec fn table_as_map<V>(t: Seq<(Option<V>, nat)>) -> Map<Option<V>, nat>
    decreases t.len(),
{
    if t.len() == 0 {
        Map::empty()
    } else {
        table_as_map(t.drop_last()).insert(t.last().0, t.last().1)
    }
}

/// A well-formed table holds each slot at most once, every count at least 1.
pub open spec fn table_wf<V>(t: Seq<(Option<V>, nat)>) -> bool {
    &&& forall|i: int, j: int|
        0 <= i < t.len() && 0 <= j < t.len() && i != j ==> t[i].0 != t[j].0
    &&& forall|i: int| 0 <= i < t.len() ==> t[i].1 >= 1
}

/// The effect of recording `c` more observations of slot `s`: an existing
/// entry is increased in place, a missing one is appended.
pub open spec fn table_add<V>(t: Seq<(Option<V>, nat)>, s: Option<V>, c: nat) -> Seq<
    (Option<V>, nat),
> {
    let i = slot_index(t, s);
    if i >= 0 {
        t.update(i, (s, (t[i].1 + c) as nat))
    } else {
        t.push((s, c))
    }
}

/// The weighted draw: the first entry whose accumulated count exceeds `cap`.
pub open spec fn pick_in<V>(t: Seq<(Option<V>, nat)>, cap: nat) -> Option<V>
    decreases t.len(),
{
    if t.len() == 0 {
        None
    } else if cap < t.first().1 {
        t.first().0
    } else {
        pick_in(t.drop_first(), (cap - t.first().1) as nat)
    }
}

/// The index of the first row of `rows` keyed by `k`, or -1.
pub open spec fn key_index<V>(
    rows: Seq<(Seq<Option<V>>, Seq<(Option<V>, nat)>)>,
    k: Seq<Option<V>>,
) -> int
    decreases rows.len(),
{
    if rows.len() == 0 {
        -1
    } else if rows.first().0 == k {
        0
    } else {
        let r = key_index(rows.drop_first(), k);
        if r < 0 {
            -1
        } else {
            r + 1
        }
    }
}

/// The table stored for key `k`, or the empty table if `k` has no row.
pub open spec fn rows_table<V>(
    rows: Seq<(Seq<Option<V>>, Seq<(Option<V>, nat)>)>,
    k: Seq<Option<V>>,
) -> Seq<(Option<V>, nat)> {
    let i = key_index(rows, k);
    if i >= 0 {
        rows[i].1
    } else {
        Seq::empty()
    }
}

/// The ordered state as a map from context key to distribution map.
pub open spec fn rows_as_map<V>(rows: Seq<(Seq<Option<V>>, Seq<(Option<V>, nat)>)>) -> Map<
    Seq<Option<V>>,
    Map<Option<V>, nat>,
>
    decreases rows.len(),
{
    if rows.len() == 0 {
        Map::empty()
    } else {
        rows_as_map(rows.drop_last()).insert(rows.last().0, table_as_map(rows.last().1))
    }
}

/// The number of observations recorded anywhere in the state.
pub open spec fn grand_total<V>(rows: Seq<(Seq<Option<V>>, Seq<(Option<V>, nat)>)>) -> nat
    decreases rows.len(),
{
    if rows.len() == 0 {
        0
    } else {
        grand_total(rows.drop_last()) + table_total(rows.last().1)
    }
}

/// A well-formed chain state of order `n`.
///
/// Every key has length `n`; keys are distinct; tables are well-formed;
/// the all-sentinel start key is present; every key other than the start
/// key has a non-empty table; every real token observed as a next step
/// leads to a context that itself has a row; and the total count fits in
/// a machine word.
pub open spec fn wf_rows<V>(
    rows: Seq<(Seq<Option<V>>, Seq<(Option<V>, nat)>)>,
    n: nat,
) -> bool {
    &&& n >= 1
    &&& forall|i: int| 0 <= i < rows.len() ==> (#[trigger] rows[i].0).len() == n
    &&& forall|i: int, j: int|
        0 <= i < rows.len() && 0 <= j < rows.len() && i != j ==> rows[i].0 != rows[j].0
    &&& forall|i: int| 0 <= i < rows.len() ==> table_wf(#[trigger] rows[i].1)
    &&& key_index(rows, all_none(n)) >= 0
    &&& forall|i: int|
        0 <= i < rows.len() && (#[trigger] rows[i].0) != all_none::<V>(n) ==> rows[i].1.len() > 0
    &&& successors_present(rows, None)
    &&& grand_total(rows) <= usize::MAX
}

/// Every real-token transition recorded in `rows` leads to a context that
/// has a row — except, possibly, transitions into the excused key, which a
/// feed in progress has not inserted yet.
pub open spec fn successors_present<V>(
    rows: Seq<(Seq<Option<V>>, Seq<(Option<V>, nat)>)>,
    excuse: Option<Seq<Option<V>>>,
) -> bool {
    forall|i: int, j: int|
        0 <= i < rows.len() && 0 <= j < rows[i].1.len() && rows[i].1[j].0 is Some
            ==> key_index(rows, shift_key(rows[i].0, #[trigger] rows[i].1[j].0)) >= 0
            || Some(shift_key(rows[i].0, rows[i].1[j].0)) == excuse
}

/// A chain state that is well-formed but for transitions into `excuse`.
pub open spec fn wf_rows_except<V>(
    rows: Seq<(Seq<Option<V>>, Seq<(Option<V>, nat)>)>,
    n: nat,
    excuse: Option<Seq<Option<V>>>,
) -> bool {
    &&& n >= 1
    &&& forall|i: int| 0 <= i < rows.len() ==> (#[trigger] rows[i].0).len() == n
    &&& forall|i: int, j: int|
        0 <= i < rows.len() && 0 <= j < rows.len() && i != j ==> rows[i].0 != rows[j].0
    &&& forall|i: int| 0 <= i < rows.len() ==> table_wf(#[trigger] rows[i].1)
    &&& key_index(rows, all_none(n)) >= 0
    &&& forall|i: int|
        0 <= i < rows.len() && (#[trigger] rows[i].0) != all_none::<V>(n) ==> rows[i].1.len() > 0
    &&& successors_present(rows, excuse)
}

/// The count a distribution map holds for `s`, zero when absent.
pub open spec fn table_get<V>(t: Map<Option<V>, nat>, s: Option<V>) -> nat {
    if t.dom().contains(s) {
        t[s]
    } else {
        0
    }
}

/// The distribution map a chain map holds for `k`, empty when absent.
pub open spec fn chain_get<V>(
    m: Map<Seq<Option<V>>, Map<Option<V>, nat>>,
    k: Seq<Option<V>>,
) -> Map<Option<V>, nat> {
    if m.dom().contains(k) {
        m[k]
    } else {
        Map::empty()
    }
}

/// Records one observation of slot `s` after context `k` in the map view.
pub open spec fn bump<V>(
    m: Map<Seq<Option<V>>, Map<Option<V>, nat>>,
    k: Seq<Option<V>>,
    s: Option<V>,
) -> Map<Seq<Option<V>>, Map<Option<V>, nat>> {
    let t = chain_get(m, k);
    m.insert(k, t.insert(s, (table_get(t, s) + 1) as nat))
}

/// A training sequence padded with `n` leading sentinels and one trailing
/// sentinel.
pub open spec fn padded<V>(n: nat, toks: Seq<V>) -> Seq<Option<V>> {
    all_none(n) + toks.map_values(|t: V| Some(t)) + seq![None]
}

/// Records, one window at a time from position `j` on, every transition a
/// padded sequence `p` shows for context width `n`.
pub open spec fn feed_windows<V>(
    m: Map<Seq<Option<V>>, Map<Option<V>, nat>>,
    p: Seq<Option<V>>,
    n: nat,
    j: nat,
) -> Map<Seq<Option<V>>, Map<Option<V>, nat>>
    decreases p.len() - j,
{
    if j + n < p.len() {
        feed_windows(bump(m, p.subrange(j as int, (j + n) as int), p[(j + n) as int]), p, n, j + 1)
    } else {
        m
    }
}

/// The effect of feeding one training sequence on the map view. An empty
/// sequence changes nothing.
pub open spec fn feed_effect<V>(
    m: Map<Seq<Option<V>>, Map<Option<V>, nat>>,
    n: nat,
    toks: Seq<V>,
) -> Map<Seq<Option<V>>, Map<Option<V>, nat>> {
    if toks.len() == 0 {
        m
    } else {
        feed_windows(m, padded(n, toks), n, 0)
    }
}

/// Pointwise sum of two distribution maps.
pub open spec fn table_plus<V>(t1: Map<Option<V>, nat>, t2: Map<Option<V>, nat>) -> Map<
    Option<V>,
    nat,
> {
    Map::new(
        |s: Option<V>| t1.dom().contains(s) || t2.dom().contains(s),
        |s: Option<V>| (table_get(t1, s) + table_get(t2, s)) as nat,
    )
}

/// Pointwise sum of two chain maps: the merged model.
pub open spec fn chain_plus<V>(
    m1: Map<Seq<Option<V>>, Map<Option<V>, nat>>,
    m2: Map<Seq<Option<V>>, Map<Option<V>, nat>>,
) -> Map<Seq<Option<V>>, Map<Option<V>, nat>> {
    Map::new(
        |k: Seq<Option<V>>| m1.dom().contains(k) || m2.dom().contains(k),
        |k: Seq<Option<V>>| table_plus(chain_get(m1, k), chain_get(m2, k)),
    )
}

/// The map view of a freshly constructed chain of order `n`.
pub open spec fn empty_chain<V>(n: nat) -> Map<Seq<Option<V>>, Map<Option<V>, nat>> {
    Map::empty().insert(all_none(n), Map::empty())
}

/// The context reached after the first `j` steps of a walk that started at
/// `start` and picked the slots `picked`.
pub open spec fn trace_key<V>(
    start: Seq<Option<V>>,
    picked: Seq<Option<V>>,
    j: int,
) -> Seq<Option<V>>
    decreases j,
{
    if j <= 0 {
        start
    } else {
        shift_key(trace_key(start, picked, j - 1), picked[j - 1])
    }
}

/// The step-validity of a generation walk over the ordered state `rows`,
/// started at context `start`: at each step the context has a row, the
/// drawn cap is below the table's total, and the picked slot is the
/// weighted draw for that cap.
pub open spec fn walk_prefix<V>(
    rows: Seq<(Seq<Option<V>>, Seq<(Option<V>, nat)>)>,
    start: Seq<Option<V>>,
    picked: Seq<Option<V>>,
    caps: Seq<nat>,
) -> bool {
    &&& picked.len() == caps.len()
    &&& forall|j: int|
        0 <= j < picked.len() ==> key_index(rows, trace_key(start, picked, j)) >= 0
    &&& forall|j: int|
        0 <= j < picked.len() ==> (#[trigger] caps[j]) < table_total(
            rows_table(rows, trace_key(start, picked, j)),
        )
    &&& forall|j: int|
        0 <= j < picked.len() ==> (#[trigger] picked[j]) == pick_in(
            rows_table(rows, trace_key(start, picked, j)),
            caps[j],
        )
}

/// A complete generation walk: every step but the last picks a real token,
/// and the last step picks the sentinel and stops the walk.
pub open spec fn walk_trace<V>(
    rows: Seq<(Seq<Option<V>>, Seq<(Option<V>, nat)>)>,
    start: Seq<Option<V>>,
    picked: Seq<Option<V>>,
    caps: Seq<nat>,
) -> bool {
    &&& walk_prefix(rows, start, picked, caps)
    &&& picked.len() >= 1
    &&& forall|j: int| 0 <= j < picked.len() - 1 ==> (#[trigger] picked[j]) is Some
    &&& picked.last() is None
}

/// A walk cut off by the step budget: every drawn slot so far was a real
/// token, and as many were drawn as a machine word can count. No feasible
/// run reaches this.
pub open spec fn truncated_walk<V>(
    rows: Seq<(Seq<Option<V>>, Seq<(Option<V>, nat)>)>,
    start: Seq<Option<V>>,
    picked: Seq<Option<V>>,
    caps: Seq<nat>,
) -> bool {
    &&& walk_prefix(rows, start, picked, caps)
    &&& picked.len() == usize::MAX
    &&& forall|j: int| 0 <= j < picked.len() ==> (#[trigger] picked[j]) is Some
}

/// The real tokens of a walk, in order: the slots picked, sentinels left
/// out.
pub open spec fn reals<V>(picked: Seq<Option<V>>) -> Seq<V>
    decreases picked.len(),
{
    if picked.len() == 0 {
        Seq::empty()
    } else {
        match picked.first() {
            Some(v) => seq![v] + reals(picked.drop_first()),
            None => reals(picked.drop_first()),
        }
    }
}

/// An output `out` is one that a generation walk from `start` can produce:
/// the real tokens of a complete walk, or of one cut off by the step
/// budget.
pub open spec fn possible_walk<V>(
    rows: Seq<(Seq<Option<V>>, Seq<(Option<V>, nat)>)>,
    start: Seq<Option<V>>,
    out: Seq<V>,
) -> bool {
    exists|picked: Seq<Option<V>>, caps: Seq<nat>|
        (walk_trace(rows, start, picked, caps) || truncated_walk(rows, start, picked, caps))
            && out == reals(picked)
}

/// The chain state that a plain-data image describes: the same rows, with
/// machine-word counts read as numbers.
pub open spec fn parts_rows<V>(pe: Seq<(Seq<Option<V>>, Seq<(Option<V>, usize)>)>) -> Seq<
    (Seq<Option<V>>, Seq<(Option<V>, nat)>),
> {
    pe.map_values(
        |r: (Seq<Option<V>>, Seq<(Option<V>, usize)>)|
            (r.0, r.1.map_values(|e: (Option<V>, usize)| (e.0, e.1 as nat))),
    )
}

/// A run of the walk extends the output `pre` into `post`: the tokens
/// appended are the real tokens of a complete walk from `start`, or of one
/// cut off by the step budget.
pub open spec fn walk_extends<V>(
    rows: Seq<(Seq<Option<V>>, Seq<(Option<V>, nat)>)>,
    start: Seq<Option<V>>,
    pre: Seq<V>,
    post: Seq<V>,
) -> bool {
    exists|picked: Seq<Option<V>>, caps: Seq<nat>|
        (walk_trace(rows, start, picked, caps) || truncated_walk(rows, start, picked, caps))
            && post == pre + reals(picked)
}

/// The context key a single seed token stands in: `n - 1` sentinels
/// followed by the token.
pub open spec fn seed_key<V>(n: nat, tv: V) -> Seq<Option<V>> {
    all_none::<V>((n - 1) as nat).push(Some(tv))
}

/// The context reached after the first `i` seed tokens of `toks` were
/// accepted, starting from the all-sentinel context.
pub open spec fn seeds_key<V>(n: nat, toks: Seq<V>, i: int) -> Seq<Option<V>>
    decreases i,
{
    if i <= 0 {
        all_none::<V>(n)
    } else {
        shift_key(seeds_key(n, toks, i - 1), Some(toks[i - 1]))
    }
}

/// Whether the chain records seed token `i` as a transition from the
/// context the earlier seeds reached.
pub open spec fn seed_step_ok<V>(
    rows: Seq<(Seq<Option<V>>, Seq<(Option<V>, nat)>)>,
    n: nat,
    toks: Seq<V>,
    i: int,
) -> bool {
    let k = seeds_key(n, toks, i);
    key_index(rows, k) >= 0 && slot_index(rows_table(rows, k), Some(toks[i])) >= 0
}

/// How many seed tokens, from position `i` on, the chain accepts in a row
/// before one is not a recorded transition.
pub open spec fn seed_prefix_len_from<V>(
    rows: Seq<(Seq<Option<V>>, Seq<(Option<V>, nat)>)>,
    n: nat,
    toks: Seq<V>,
    i: int,
) -> int
    decreases toks.len() - i,
{
    if i < 0 || i >= toks.len() {
        i
    } else if seed_step_ok(rows, n, toks, i) {
        seed_prefix_len_from(rows, n, toks, i + 1)
    } else {
        i
    }
}

/// The cap a scripted random source yields at step `j` for a table whose
/// total is `total`: the scripted draw reduced modulo the total, or zero
/// once the script is exhausted.
pub open spec fn cap_from_script(script: Seq<nat>, j: int, total: nat) -> nat {
    if 0 <= j < script.len() {
        script[j] % total
    } else {
        0
    }
}

} // verus!
