//! The store's laws, proved over the model.
//!
//! [`Store::process`] pins its result down to [`run_batch`], so each law
//! stated here about `run_batch` holds of every processing pass of the
//! executable store.
//!
//! [`Store::process`]: crate::store::Store::process
//! [`run_batch`]: crate::model::run_batch

use vstd::prelude::*;

use crate::command::{CmdModel, ReportModel};
use crate::model::{apply_create, apply_key, apply_keys, datasets_of_model, fresh_keys,
    init_model, lemma_apply_keys_count, lemma_apply_keys_edges, lemma_apply_keys_monotone,
    lemma_apply_keys_surjective, lemma_apply_keys_values, lemma_duplicate_key_dropped,
    lemma_init_wf, lemma_run_batch_wf, panes_of_model, referenced_keys, resolves_to, run_batch,
    run_cmd, wf_model, StoreModel};

verus! {

/// Deduplication: processing registers exactly the keys the commands
/// reference — each at most once, however often it repeats — and the
/// number of live datasets always equals the number of registered keys.
pub proof fn lemma_dedup(m: StoreModel, cmds: Seq<CmdModel>)
    requires
        wf_model(m),
    ensures
        ({
            let m2 = run_batch(m, cmds).0;
            &&& wf_model(m2)
            &&& m2.registry.dom() == m.registry.dom() + referenced_keys(cmds)
            &&& m2.datasets.dom().len() == m2.registry.dom().len()
        }),
{
    lemma_run_batch_wf(m, cmds);
}

/// Deduplication from a fresh store: the number of live datasets equals
/// the number of distinct keys ever referenced, regardless of how many
/// panes reference a key or how often a key repeats across commands.
pub proof fn lemma_dedup_from_empty(cmds: Seq<CmdModel>)
    ensures
        run_batch(init_model(), cmds).0.datasets.dom().len() == referenced_keys(cmds).len(),
{
    lemma_init_wf();
    lemma_run_batch_wf(init_model(), cmds);
    assert(run_batch(init_model(), cmds).0.registry.dom() =~= referenced_keys(cmds));
}

/// Bidirectional consistency: in any state, a dataset is among the
/// datasets of a pane exactly when the pane is among the panes of the
/// dataset — both views read the same edge set.
pub proof fn lemma_bidirectional_consistency(m: StoreModel, p: int, d: int)
    ensures
        datasets_of_model(m, p).contains(d) <==> panes_of_model(m, d).contains(p),
{
}

/// Cascade delete: after a delete command for a live pane is processed,
/// the pane is gone, it uses no datasets, and no dataset's subscribers
/// contain it.
pub proof fn lemma_cascade_delete(m: StoreModel, p: int)
    requires
        wf_model(m),
        m.panes.contains_key(p),
    ensures
        ({
            let m2 = run_cmd(m, CmdModel::Delete { pane: p }).0;
            &&& !m2.panes.contains_key(p)
            &&& datasets_of_model(m2, p) == Set::<int>::empty()
            &&& forall|d: int| !(#[trigger] panes_of_model(m2, d).contains(p))
        }),
{
    let m2 = run_cmd(m, CmdModel::Delete { pane: p }).0;
    assert(datasets_of_model(m2, p) =~= Set::<int>::empty());
}

/// Idempotent edges: resolving the same key for the same pane twice
/// leaves exactly the state that resolving it once leaves, so adding an
/// existing edge is a no-op.
pub proof fn lemma_idempotent_edge(m: StoreModel, p: int, key: Seq<char>)
    ensures
        apply_key(apply_key(m, p, key), p, key) == apply_key(m, p, key),
{
    let m1 = apply_key(m, p, key);
    if m.registry.contains_key(key) {
        assert(apply_key(m1, p, key).edges =~= m1.edges);
        assert(apply_key(m1, p, key) =~= m1);
    } else {
        assert(m1.registry.contains_key(key));
        assert(m1.registry[key] == m.next_id);
        assert(apply_key(m1, p, key).edges =~= m1.edges);
        assert(apply_key(m1, p, key) =~= m1);
    }
}

/// Idempotent edges, key-list form: in a create command's key list, a key
/// standing after an earlier occurrence of itself adds nothing — the
/// resolved state equals the one reached with the repeat removed.
pub proof fn lemma_idempotent_edge_in_key_list(
    m: StoreModel,
    p: int,
    keys: Seq<Seq<char>>,
    j: int,
)
    requires
        0 <= j < keys.len(),
        exists|i: int| 0 <= i < j && keys[i] == keys[j],
    ensures
        apply_keys(m, p, keys) == apply_keys(m, p, keys.remove(j)),
{
    lemma_duplicate_key_dropped(m, p, keys, j);
}

/// Idempotent edges, whole-command form: a create command whose key list
/// repeats a key reaches the same panes, datasets, registry, and edges —
/// and gives its pane the same dataset set — as the command with the
/// repeat removed. Only the log records the list as requested.
pub proof fn lemma_idempotent_edges_in_create(m: StoreModel, keys: Seq<Seq<char>>, j: int)
    requires
        0 <= j < keys.len(),
        exists|i: int| 0 <= i < j && keys[i] == keys[j],
    ensures
        ({
            let a = apply_create(m, keys);
            let b = apply_create(m, keys.remove(j));
            &&& datasets_of_model(a, m.next_id) == datasets_of_model(b, m.next_id)
            &&& a.panes == b.panes
            &&& a.datasets == b.datasets
            &&& a.registry == b.registry
            &&& a.edges == b.edges
            &&& a.next_id == b.next_id
        }),
{
    let m1 = StoreModel {
        panes: m.panes.insert(m.next_id, crate::model::default_attrs()),
        next_id: m.next_id + 1,
        ..m
    };
    lemma_duplicate_key_dropped(m1, m.next_id, keys, j);
    assert(datasets_of_model(apply_create(m, keys), m.next_id) =~= datasets_of_model(
        apply_create(m, keys.remove(j)),
        m.next_id,
    ));
}

/// Idempotent edges at any position: inserting an extra copy of a key the
/// list already holds — wherever the copy is inserted — gives the pane
/// exactly the same dataset set. (A copy inserted before every occurrence
/// of its key can permute which identifier each fresh dataset receives,
/// so the whole state is preserved only in the forms above; the dataset
/// set is preserved always.)
pub proof fn lemma_idempotent_edge_any_position(
    m: StoreModel,
    p: int,
    keys: Seq<Seq<char>>,
    q: int,
    o: int,
)
    requires
        0 <= o < keys.len(),
        0 <= q <= keys.len(),
    ensures
        datasets_of_model(apply_keys(m, p, keys.insert(q, keys[o])), p) == datasets_of_model(
            apply_keys(m, p, keys),
            p,
        ),
{
    let k = keys[o];
    let dup = keys.insert(q, k);
    assert(dup.to_set() =~= keys.to_set()) by {
        assert forall|x: Seq<char>| #[trigger] dup.to_set().contains(x) implies
            keys.to_set().contains(x) by {
            let i = choose|i: int| 0 <= i < dup.len() && dup[i] == x;
            if i < q {
                assert(keys[i] == x);
            } else if i == q {
                assert(keys[o] == x);
            } else {
                assert(keys[i - 1] == x);
            }
        }
        assert forall|x: Seq<char>| keys.to_set().contains(x) implies #[trigger] dup
            .to_set().contains(x) by {
            let i = choose|i: int| 0 <= i < keys.len() && keys[i] == x;
            if i < q {
                assert(dup[i] == x);
            } else {
                assert(dup[i + 1] == x);
            }
        }
    }
    let r_dup = apply_keys(m, p, dup);
    let r_orig = apply_keys(m, p, keys);
    lemma_apply_keys_count(m, p, dup);
    lemma_apply_keys_count(m, p, keys);
    assert(fresh_keys(m, dup) == fresh_keys(m, keys));
    assert(r_dup.next_id == r_orig.next_id);
    lemma_apply_keys_monotone(m, p, dup);
    lemma_apply_keys_monotone(m, p, keys);
    lemma_apply_keys_values(m, p, dup);
    lemma_apply_keys_values(m, p, keys);
    lemma_apply_keys_surjective(m, p, dup);
    lemma_apply_keys_surjective(m, p, keys);
    lemma_apply_keys_edges(m, p, dup);
    lemma_apply_keys_edges(m, p, keys);
    assert(datasets_of_model(r_dup, p) =~= datasets_of_model(r_orig, p)) by {
        assert forall|d: int| #[trigger] r_dup.edges.contains((p, d)) implies
            r_orig.edges.contains((p, d)) by {
            if !m.edges.contains((p, d)) {
                assert(resolves_to(r_dup, dup, d));
                let k1 = choose|k1: Seq<char>|
                    #[trigger] dup.to_set().contains(k1) && r_dup.registry.contains_key(k1)
                        && r_dup.registry[k1] == d;
                assert(keys.to_set().contains(k1));
                if m.registry.contains_key(k1) {
                    assert(r_dup.registry[k1] == m.registry[k1]);
                    assert(r_orig.registry.contains_key(k1) && r_orig.registry[k1]
                        == m.registry[k1]);
                    assert(resolves_to(r_orig, keys, d));
                } else {
                    assert(m.next_id <= d < r_dup.next_id);
                    assert(resolves_to(r_orig, keys, d));
                }
            }
        }
        assert forall|d: int| #[trigger] r_orig.edges.contains((p, d)) implies
            r_dup.edges.contains((p, d)) by {
            if !m.edges.contains((p, d)) {
                assert(resolves_to(r_orig, keys, d));
                let k1 = choose|k1: Seq<char>|
                    #[trigger] keys.to_set().contains(k1) && r_orig.registry.contains_key(k1)
                        && r_orig.registry[k1] == d;
                assert(dup.to_set().contains(k1));
                if m.registry.contains_key(k1) {
                    assert(r_orig.registry[k1] == m.registry[k1]);
                    assert(r_dup.registry.contains_key(k1) && r_dup.registry[k1]
                        == m.registry[k1]);
                    assert(resolves_to(r_dup, dup, d));
                } else {
                    assert(m.next_id <= d < r_orig.next_id);
                    assert(resolves_to(r_dup, dup, d));
                }
            }
        }
    }
}

/// Every error a processing pass reports is `NotFound`: duplicate keys
/// are resolved transparently, so `DuplicateKey` is never surfaced.
pub proof fn lemma_errors_are_not_found(m: StoreModel, cmds: Seq<CmdModel>)
    ensures
        forall|i: int|
            0 <= i < run_batch(m, cmds).1.errors.len() ==> (#[trigger] run_batch(
                m,
                cmds,
            ).1.errors[i]).1 == crate::command::ErrorKind::NotFound,
    decreases cmds.len(),
{
    if cmds.len() > 0 {
        let (m1, r1) = run_cmd(m, cmds.first());
        lemma_errors_are_not_found(m1, cmds.drop_first());
        let r2 = run_batch(m1, cmds.drop_first()).1;
        assert forall|i: int|
            0 <= i < run_batch(m, cmds).1.errors.len() implies (#[trigger] run_batch(
            m,
            cmds,
        ).1.errors[i]).1 == crate::command::ErrorKind::NotFound by {
            if i < r1.errors.len() {
                assert(run_batch(m, cmds).1.errors[i] == r1.errors[i]);
            } else {
                assert(run_batch(m, cmds).1.errors[i] == r2.errors[i - r1.errors.len()]);
            }
        }
    }
}

/// Batch isolation: running two batches one after the other is the same
/// as running their concatenation, with the reports concatenated — so the
/// report of a pass covers exactly the commands drained at its start, and
/// commands enqueued later land, unchanged in effect, in the next pass.
pub proof fn lemma_batch_split(m: StoreModel, a: Seq<CmdModel>, b: Seq<CmdModel>)
    ensures
        run_batch(m, a + b).0 == run_batch(run_batch(m, a).0, b).0,
        run_batch(m, a + b).1 == run_batch(m, a).1.concat(run_batch(run_batch(m, a).0, b).1),
    decreases a.len(),
{
    if a.len() == 0 {
        assert(a + b =~= b);
        assert(run_batch(m, a) == (m, ReportModel::empty()));
        assert(ReportModel::empty().concat(run_batch(m, b).1) =~= run_batch(m, b).1);
    } else {
        assert((a + b).len() > 0);
        assert((a + b).first() == a.first());
        assert((a + b).drop_first() =~= a.drop_first() + b);
        let (m1, r1) = run_cmd(m, a.first());
        assert(run_batch(m, a + b) == (
            run_batch(m1, (a + b).drop_first()).0,
            r1.concat(run_batch(m1, (a + b).drop_first()).1),
        ));
        assert(run_batch(m, a) == (
            run_batch(m1, a.drop_first()).0,
            r1.concat(run_batch(m1, a.drop_first()).1),
        ));
        lemma_batch_split(m1, a.drop_first(), b);
        let ra = run_batch(m1, a.drop_first()).1;
        let rb = run_batch(run_batch(m1, a.drop_first()).0, b).1;
        assert(r1.concat(ra.concat(rb)) =~= r1.concat(ra).concat(rb));
    }
}

} // verus!
