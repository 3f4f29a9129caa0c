//! The laws of the chain model, stated and proved over the same spec
//! functions that the executable functions' contracts use.

use crate::chain::{
    caps_from_source, lemma_rows_map_contains, source_model_at, walk_extends_det,
};
use crate::model::{
    all_none, bump, chain_get, chain_plus, empty_chain, feed_effect, feed_windows, parts_rows,
    pick_in, reals, rows_as_map, rows_table, shift_key, table_plus, table_total, trace_key,
    truncated_walk, walk_prefix, walk_trace, wf_rows,
};
use crate::rng::RandomSource;
use vstd::prelude::*;

verus! {

/// Order invariant: in a well-formed chain state, every context key in the
/// map has length exactly the chain's order.
pub proof fn lemma_keys_have_order_length<V>(
    rows: Seq<(Seq<Option<V>>, Seq<(Option<V>, nat)>)>,
    n: nat,
)
    requires
        wf_rows(rows, n),
    ensures
        forall|k: Seq<Option<V>>|
            rows_as_map(rows).dom().contains(k) ==> (#[trigger] k.len()) == n,
{
    assert forall|k: Seq<Option<V>>|
        rows_as_map(rows).dom().contains(k) implies k.len() == n by {
        lemma_rows_map_contains(rows, k);
        let j = choose|j: int| 0 <= j < rows.len() && rows[j].0 == k;
        assert(rows[j].0.len() == n);
    }
}

/// Two walks over one state, driven by one deterministic source's model
/// state, agree step for step up to `j`: equal contexts give equal
/// totals, the source then dictates equal caps, and the weighted draw
/// picks equal slots.
#[verifier::rlimit(100)]
proof fn lemma_walk_prefix_agree<V, R: RandomSource>(
    rows: Seq<(Seq<Option<V>>, Seq<(Option<V>, nat)>)>,
    start: Seq<Option<V>>,
    m0: Seq<nat>,
    p1: Seq<Option<V>>,
    c1: Seq<nat>,
    p2: Seq<Option<V>>,
    c2: Seq<nat>,
    j: nat,
)
    requires
        walk_prefix(rows, start, p1, c1),
        walk_prefix(rows, start, p2, c2),
        caps_from_source::<V, R>(m0, rows, start, p1, c1),
        caps_from_source::<V, R>(m0, rows, start, p2, c2),
        j <= p1.len(),
        j <= p2.len(),
    ensures
        forall|x: int| 0 <= x < j ==> p1[x] == p2[x] && c1[x] == c2[x],
        trace_key(start, p1, j as int) == trace_key(start, p2, j as int),
        source_model_at::<V, R>(m0, rows, start, p1, j as int) == source_model_at::<V, R>(
            m0,
            rows,
            start,
            p2,
            j as int,
        ),
    decreases j,
{
    if j > 0 {
        lemma_walk_prefix_agree::<V, R>(rows, start, m0, p1, c1, p2, c2, (j - 1) as nat);
        let x = j - 1;
        assert(trace_key(start, p1, x) == trace_key(start, p2, x));
        assert(source_model_at::<V, R>(m0, rows, start, p1, x) == source_model_at::<V, R>(
            m0,
            rows,
            start,
            p2,
            x,
        ));
        assert(c1[x] == R::cap_of(
            source_model_at::<V, R>(m0, rows, start, p1, x),
            table_total(rows_table(rows, trace_key(start, p1, x))),
        ));
        assert(c2[x] == R::cap_of(
            source_model_at::<V, R>(m0, rows, start, p2, x),
            table_total(rows_table(rows, trace_key(start, p2, x))),
        ));
        assert(c1[x] == c2[x]);
        assert(p1[x] == pick_in(rows_table(rows, trace_key(start, p1, x)), c1[x]));
        assert(p2[x] == pick_in(rows_table(rows, trace_key(start, p2, x)), c2[x]));
        assert(p1[x] == p2[x]);
        assert(trace_key(start, p1, j as int) == shift_key(trace_key(start, p1, x), p1[x]));
        assert(trace_key(start, p2, j as int) == shift_key(trace_key(start, p2, x), p2[x]));
        assert(source_model_at::<V, R>(m0, rows, start, p1, j as int) == R::next_of(
            source_model_at::<V, R>(m0, rows, start, p1, x),
            table_total(rows_table(rows, trace_key(start, p1, x))),
        ));
        assert(source_model_at::<V, R>(m0, rows, start, p2, j as int) == R::next_of(
            source_model_at::<V, R>(m0, rows, start, p2, x),
            table_total(rows_table(rows, trace_key(start, p2, x))),
        ));
    }
}

/// Determinism: a generation walk is fixed by the chain state and the
/// deterministic source's model state. Two walks over one state driven by
/// one model state pick the same slots with the same caps — and end
/// alike, complete or at the step budget — so they produce the same
/// output.
pub proof fn lemma_generate_deterministic<V, R: RandomSource>(
    rows: Seq<(Seq<Option<V>>, Seq<(Option<V>, nat)>)>,
    start: Seq<Option<V>>,
    m0: Seq<nat>,
    p1: Seq<Option<V>>,
    c1: Seq<nat>,
    p2: Seq<Option<V>>,
    c2: Seq<nat>,
)
    requires
        walk_trace(rows, start, p1, c1) || truncated_walk(rows, start, p1, c1),
        walk_trace(rows, start, p2, c2) || truncated_walk(rows, start, p2, c2),
        p1.len() <= usize::MAX,
        p2.len() <= usize::MAX,
        caps_from_source::<V, R>(m0, rows, start, p1, c1),
        caps_from_source::<V, R>(m0, rows, start, p2, c2),
    ensures
        p1 == p2,
        c1 == c2,
{
    let j = if p1.len() <= p2.len() {
        p1.len()
    } else {
        p2.len()
    };
    lemma_walk_prefix_agree::<V, R>(rows, start, m0, p1, c1, p2, c2, j);
    if p1.len() < p2.len() {
        assert(walk_trace(rows, start, p1, c1));
        assert(p1[p1.len() - 1] is None);
        assert(p2[p1.len() - 1] is Some);
        assert(false);
    }
    if p2.len() < p1.len() {
        assert(walk_trace(rows, start, p2, c2));
        assert(p2[p2.len() - 1] is None);
        assert(p1[p2.len() - 1] is Some);
        assert(false);
    }
    assert(p1 =~= p2);
    assert(c1 =~= c2);
}

/// Determinism at the API: over one chain state, a deterministic source
/// in one model state extends one output in exactly one way. Two calls of
/// generation with equally scripted sources return equal collections.
pub proof fn lemma_deterministic_outputs_equal<V, R: RandomSource>(
    m0: Seq<nat>,
    rows: Seq<(Seq<Option<V>>, Seq<(Option<V>, nat)>)>,
    start: Seq<Option<V>>,
    pre: Seq<V>,
    post1: Seq<V>,
    post2: Seq<V>,
)
    requires
        walk_extends_det::<V, R>(m0, rows, start, pre, post1),
        walk_extends_det::<V, R>(m0, rows, start, pre, post2),
    ensures
        post1 == post2,
{
    let (p1, c1) = choose|picked: Seq<Option<V>>, caps: Seq<nat>|
        (walk_trace(rows, start, picked, caps) || truncated_walk(rows, start, picked, caps))
            && picked.len() <= usize::MAX && caps_from_source::<V, R>(
            m0,
            rows,
            start,
            picked,
            caps,
        ) && post1 == pre + reals(picked);
    let (p2, c2) = choose|picked: Seq<Option<V>>, caps: Seq<nat>|
        (walk_trace(rows, start, picked, caps) || truncated_walk(rows, start, picked, caps))
            && picked.len() <= usize::MAX && caps_from_source::<V, R>(
            m0,
            rows,
            start,
            picked,
            caps,
        ) && post2 == pre + reals(picked);
    lemma_generate_deterministic::<V, R>(rows, start, m0, p1, c1, p2, c2);
}

/// Pointwise table addition is commutative.
pub proof fn lemma_table_plus_comm<V>(t1: Map<Option<V>, nat>, t2: Map<Option<V>, nat>)
    ensures
        table_plus(t1, t2) == table_plus(t2, t1),
{
    assert(table_plus(t1, t2) =~= table_plus(t2, t1));
}

/// Pointwise chain addition is commutative: merging is symmetric in the
/// two models.
pub proof fn lemma_chain_plus_comm<V>(
    m1: Map<Seq<Option<V>>, Map<Option<V>, nat>>,
    m2: Map<Seq<Option<V>>, Map<Option<V>, nat>>,
)
    ensures
        chain_plus(m1, m2) == chain_plus(m2, m1),
{
    assert forall|k: Seq<Option<V>>|
        chain_plus(m1, m2).dom().contains(k) implies #[trigger] chain_plus(m1, m2)[k]
        == chain_plus(m2, m1)[k] by {
        assert(chain_plus(m1, m2)[k] =~= chain_plus(m2, m1)[k]);
    }
    assert(chain_plus(m1, m2) =~~= chain_plus(m2, m1));
}

/// Recording one observation on one side of a pointwise sum records it in
/// the sum.
pub proof fn lemma_bump_plus<V>(
    m: Map<Seq<Option<V>>, Map<Option<V>, nat>>,
    x: Map<Seq<Option<V>>, Map<Option<V>, nat>>,
    k: Seq<Option<V>>,
    s: Option<V>,
)
    ensures
        chain_plus(m, bump(x, k, s)) == bump(chain_plus(m, x), k, s),
{
    let lhs = chain_plus(m, bump(x, k, s));
    let rhs = bump(chain_plus(m, x), k, s);
    assert forall|k2: Seq<Option<V>>| lhs.dom().contains(k2) implies #[trigger] lhs[k2]
        == rhs[k2] by {
        if k2 == k {
            assert(lhs[k2] =~= rhs[k2]);
        } else {
            assert(lhs[k2] =~= rhs[k2]);
        }
    }
    assert(lhs =~~= rhs);
}

/// Feeding windows on one side of a pointwise sum feeds them in the sum.
pub proof fn lemma_windows_plus<V>(
    m: Map<Seq<Option<V>>, Map<Option<V>, nat>>,
    x: Map<Seq<Option<V>>, Map<Option<V>, nat>>,
    p: Seq<Option<V>>,
    n: nat,
    j: nat,
)
    ensures
        chain_plus(m, feed_windows(x, p, n, j)) == feed_windows(chain_plus(m, x), p, n, j),
    decreases p.len() - j,
{
    if j + n < p.len() {
        let k = p.subrange(j as int, (j + n) as int);
        let s = p[(j + n) as int];
        lemma_bump_plus(m, x, k, s);
        lemma_windows_plus(m, bump(x, k, s), p, n, j + 1);
    }
}

/// Adding a freshly constructed chain to a model that already has the
/// start context changes nothing.
pub proof fn lemma_plus_empty_chain<V>(m: Map<Seq<Option<V>>, Map<Option<V>, nat>>, n: nat)
    requires
        m.dom().contains(all_none::<V>(n)),
    ensures
        chain_plus(m, empty_chain::<V>(n)) == m,
{
    let e = empty_chain::<V>(n);
    assert forall|k: Seq<Option<V>>|
        chain_plus(m, e).dom().contains(k) implies #[trigger] chain_plus(m, e)[k] == m[k] by {
        assert(chain_get(e, k).dom() =~= Set::<Option<V>>::empty());
        assert(chain_plus(m, e)[k] =~= m[k]);
    }
    assert(chain_plus(m, e) =~~= m);
}

/// Feeding never removes a context from the model.
pub proof fn lemma_feed_dom_monotone<V>(
    m: Map<Seq<Option<V>>, Map<Option<V>, nat>>,
    p: Seq<Option<V>>,
    n: nat,
    j: nat,
    k: Seq<Option<V>>,
)
    requires
        m.dom().contains(k),
    ensures
        feed_windows(m, p, n, j).dom().contains(k),
    decreases p.len() - j,
{
    if j + n < p.len() {
        lemma_feed_dom_monotone(
            bump(m, p.subrange(j as int, (j + n) as int), p[(j + n) as int]),
            p,
            n,
            j + 1,
            k,
        );
    }
}

/// Feeding a corpus into a model equals merging the model with a fresh
/// chain fed that corpus.
pub proof fn lemma_feed_is_merge_of_fresh<V>(
    m: Map<Seq<Option<V>>, Map<Option<V>, nat>>,
    n: nat,
    toks: Seq<V>,
)
    requires
        m.dom().contains(all_none::<V>(n)),
    ensures
        feed_effect(m, n, toks) == chain_plus(m, feed_effect(empty_chain::<V>(n), n, toks)),
{
    if toks.len() == 0 {
        lemma_plus_empty_chain(m, n);
    } else {
        let p = crate::model::padded(n, toks);
        lemma_windows_plus(m, empty_chain::<V>(n), p, n, 0);
        lemma_plus_empty_chain(m, n);
    }
}

/// Merge commutativity with feeding: feeding two corpora into one chain
/// produces the same map as merging two chains independently fed one
/// corpus each.
pub proof fn lemma_merge_matches_feeding<V>(n: nat, a: Seq<V>, b: Seq<V>)
    requires
        n >= 1,
    ensures
        feed_effect(feed_effect(empty_chain::<V>(n), n, a), n, b) == chain_plus(
            feed_effect(empty_chain::<V>(n), n, a),
            feed_effect(empty_chain::<V>(n), n, b),
        ),
{
    let m = feed_effect(empty_chain::<V>(n), n, a);
    assert(m.dom().contains(all_none::<V>(n))) by {
        if a.len() > 0 {
            lemma_feed_dom_monotone(
                empty_chain::<V>(n),
                crate::model::padded(n, a),
                n,
                0,
                all_none::<V>(n),
            );
        }
    }
    lemma_feed_is_merge_of_fresh(m, n, b);
}

/// Round trip: a well-formed chain state exported as plain parts is valid
/// to restore, so restoring gives back exactly the exported state.
pub proof fn lemma_parts_faithful<V>(
    rows: Seq<(Seq<Option<V>>, Seq<(Option<V>, nat)>)>,
    n: nat,
    pe: Seq<(Seq<Option<V>>, Seq<(Option<V>, usize)>)>,
)
    requires
        wf_rows(rows, n),
        parts_rows(pe) == rows,
    ensures
        wf_rows(parts_rows(pe), n),
        parts_rows(pe) == rows,
{
}

} // verus!
