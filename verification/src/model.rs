//! The mathematical model of the store and of command processing.
//!
//! A [`StoreModel`] is the abstract state a store stands for; the spec
//! functions here say exactly what each command does to that state and what
//! a processing pass reports. The executable store is verified against
//! these functions, and the library's laws are proved about them.

use vstd::prelude::*;

use crate::assoc::{lemma_remove_key_contains, remove_key_seq};
use crate::command::{CmdModel, ErrorKind, ReportModel};
use crate::entity_table::{PaneAttrs, DEFAULT_PANE_HEIGHT, DEFAULT_PANE_WIDTH};

verus! {

/// The abstract state of a store: the live panes and their attributes, the
/// live datasets and their keys, the key index, the relation's edge set,
/// the allocation counter, the pending commands, and the creation log.
#[verifier::ext_equal]
pub ghost struct StoreModel {
    pub panes: Map<int, PaneAttrs>,
    pub datasets: Map<int, Seq<char>>,
    pub registry: Map<Seq<char>, int>,
    pub edges: Set<(int, int)>,
    pub next_id: int,
    pub queue: Seq<CmdModel>,
    pub log: Seq<(int, Seq<Seq<char>>)>,
}

/// The state of a freshly initialized store.
pub open spec fn init_model() -> StoreModel {
    StoreModel {
        panes: Map::empty(),
        datasets: Map::empty(),
        registry: Map::empty(),
        edges: Set::empty(),
        next_id: 0,
        queue: Seq::empty(),
        log: Seq::empty(),
    }
}

/// The attributes every command-created pane starts with.
pub open spec fn default_attrs() -> PaneAttrs {
    PaneAttrs { width: DEFAULT_PANE_WIDTH, height: DEFAULT_PANE_HEIGHT }
}

/// The datasets a pane uses.
pub open spec fn datasets_of_model(m: StoreModel, p: int) -> Set<int> {
    Set::new(|d: int| m.edges.contains((p, d)))
}

/// The panes subscribed to a dataset.
pub open spec fn panes_of_model(m: StoreModel, d: int) -> Set<int> {
    Set::new(|p: int| m.edges.contains((p, d)))
}

/// The edge set with every edge incident to pane `p` removed.
pub open spec fn edges_without_pane(edges: Set<(int, int)>, p: int) -> Set<(int, int)> {
    Set::new(|e: (int, int)| edges.contains(e) && e.0 != p)
}

/// The key index and the dataset table list exactly the same datasets:
/// each registered key maps to a live dataset carrying that key, and each
/// live dataset's key maps back to it.
pub open spec fn inverse_maps(registry: Map<Seq<char>, int>, datasets: Map<int, Seq<char>>) -> bool {
    &&& forall|k: Seq<char>|
        #[trigger] registry.contains_key(k) ==> datasets.contains_key(registry[k])
            && datasets[registry[k]] == k
    &&& forall|d: int|
        #[trigger] datasets.contains_key(d) ==> registry.contains_key(datasets[d])
            && registry[datasets[d]] == d
}

/// A store's internal consistency: the key index and the dataset table are
/// inverse to each other, identifiers are disjoint between panes and
/// datasets and below the allocation counter, every edge joins a live pane
/// to a live dataset, and every log entry names a live pane.
pub open spec fn wf_model(m: StoreModel) -> bool {
    &&& 0 <= m.next_id
    &&& m.panes.dom().finite()
    &&& m.datasets.dom().finite()
    &&& m.registry.dom().finite()
    &&& m.datasets.dom().len() == m.registry.dom().len()
    &&& inverse_maps(m.registry, m.datasets)
    &&& forall|p: int| #[trigger] m.panes.contains_key(p) ==> 0 <= p < m.next_id
    &&& forall|d: int| #[trigger] m.datasets.contains_key(d) ==> 0 <= d < m.next_id
    &&& forall|p: int| #[trigger] m.panes.contains_key(p) ==> !m.datasets.contains_key(p)
    &&& forall|e: (int, int)|
        #[trigger] m.edges.contains(e) ==> m.panes.contains_key(e.0) && m.datasets.contains_key(
            e.1,
        )
    &&& forall|i: int| 0 <= i < m.log.len() ==> m.panes.contains_key((#[trigger] m.log[i]).0)
}

/// Resolves one dataset key for pane `p`: reuse the registered dataset if
/// the key is known, otherwise create and register a new one; either way,
/// add the edge.
pub open spec fn apply_key(m: StoreModel, p: int, key: Seq<char>) -> StoreModel {
    if m.registry.contains_key(key) {
        StoreModel { edges: m.edges.insert((p, m.registry[key])), ..m }
    } else {
        StoreModel {
            datasets: m.datasets.insert(m.next_id, key),
            registry: m.registry.insert(key, m.next_id),
            edges: m.edges.insert((p, m.next_id)),
            next_id: m.next_id + 1,
            ..m
        }
    }
}

/// Resolves a key list for pane `p`, in order.
pub open spec fn apply_keys(m: StoreModel, p: int, keys: Seq<Seq<char>>) -> StoreModel
    decreases keys.len(),
{
    if keys.len() == 0 {
        m
    } else {
        apply_keys(apply_key(m, p, keys.first()), p, keys.drop_first())
    }
}

/// Creates one pane with default attributes, resolves its key list, and
/// records the creation in the log.
pub open spec fn apply_create(m: StoreModel, keys: Seq<Seq<char>>) -> StoreModel {
    let p = m.next_id;
    let m1 = StoreModel {
        panes: m.panes.insert(p, default_attrs()),
        next_id: m.next_id + 1,
        ..m
    };
    let m2 = apply_keys(m1, p, keys);
    StoreModel { log: m2.log.push((p, keys)), ..m2 }
}

/// Deletes a pane: its attribute record, every edge incident to it, and
/// its log entry. Datasets are never deleted.
pub open spec fn apply_delete(m: StoreModel, p: int) -> StoreModel {
    StoreModel {
        panes: m.panes.remove(p),
        edges: edges_without_pane(m.edges, p),
        log: remove_key_seq(m.log, p),
        ..m
    }
}

/// What one command does to the state, and what it reports.
pub open spec fn run_cmd(m: StoreModel, c: CmdModel) -> (StoreModel, ReportModel) {
    match c {
        CmdModel::Create { keys } => (
            apply_create(m, keys),
            ReportModel {
                created: seq![(keys, m.next_id)],
                deleted: Seq::empty(),
                errors: Seq::empty(),
            },
        ),
        CmdModel::Delete { pane } => if m.panes.contains_key(pane) {
            (
                apply_delete(m, pane),
                ReportModel { created: Seq::empty(), deleted: seq![pane], errors: Seq::empty() },
            )
        } else {
            (
                m,
                ReportModel {
                    created: Seq::empty(),
                    deleted: Seq::empty(),
                    errors: seq![(c, ErrorKind::NotFound)],
                },
            )
        },
    }
}

/// What one processing pass does: every command in order, each applied to
/// the state the previous one left, with the per-command reports
/// concatenated. The pending queue is not touched.
pub open spec fn run_batch(m: StoreModel, cmds: Seq<CmdModel>) -> (StoreModel, ReportModel)
    decreases cmds.len(),
{
    if cmds.len() == 0 {
        (m, ReportModel::empty())
    } else {
        let (m1, r1) = run_cmd(m, cmds.first());
        let (m2, r2) = run_batch(m1, cmds.drop_first());
        (m2, r1.concat(r2))
    }
}

/// An upper bound on how many identifiers one command may allocate.
pub open spec fn cmd_cost(c: CmdModel) -> int {
    match c {
        CmdModel::Create { keys } => 1 + keys.len() as int,
        CmdModel::Delete { .. } => 0,
    }
}

/// An upper bound on how many identifiers a batch may allocate.
pub open spec fn batch_cost(cmds: Seq<CmdModel>) -> int
    decreases cmds.len(),
{
    if cmds.len() == 0 {
        0
    } else {
        cmd_cost(cmds.first()) + batch_cost(cmds.drop_first())
    }
}

/// The dataset keys one command references.
pub open spec fn cmd_keys(c: CmdModel) -> Set<Seq<char>> {
    match c {
        CmdModel::Create { keys } => keys.to_set(),
        CmdModel::Delete { .. } => Set::empty(),
    }
}

/// The dataset keys a batch references.
pub open spec fn referenced_keys(cmds: Seq<CmdModel>) -> Set<Seq<char>>
    decreases cmds.len(),
{
    if cmds.len() == 0 {
        Set::empty()
    } else {
        cmd_keys(cmds.first()) + referenced_keys(cmds.drop_first())
    }
}

/// A freshly initialized store is consistent.
pub proof fn lemma_init_wf()
    ensures
        wf_model(init_model()),
{
    let m = init_model();
    assert(m.panes.dom() =~= Set::<int>::empty());
    assert(m.datasets.dom() =~= Set::<int>::empty());
    assert(m.registry.dom() =~= Set::<Seq<char>>::empty());
}

/// Key resolution can be unrolled at the back of the key list.
pub proof fn lemma_apply_keys_snoc(m: StoreModel, p: int, keys: Seq<Seq<char>>, k: Seq<char>)
    ensures
        apply_keys(m, p, keys.push(k)) == apply_key(apply_keys(m, p, keys), p, k),
    decreases keys.len(),
{
    let s1 = keys.push(k);
    if keys.len() == 0 {
        assert(s1.first() == k);
        assert(s1.drop_first() =~= Seq::<Seq<char>>::empty());
        assert(apply_keys(m, p, keys) == m);
        assert(apply_keys(apply_key(m, p, k), p, s1.drop_first()) == apply_key(m, p, k));
        assert(apply_keys(m, p, s1) == apply_keys(apply_key(m, p, k), p, s1.drop_first()));
    } else {
        assert(s1.first() == keys.first());
        assert(s1.drop_first() =~= keys.drop_first().push(k));
        let m1 = apply_key(m, p, keys.first());
        assert(apply_keys(m, p, s1) == apply_keys(m1, p, keys.drop_first().push(k)));
        assert(apply_keys(m, p, keys) == apply_keys(m1, p, keys.drop_first()));
        lemma_apply_keys_snoc(m1, p, keys.drop_first(), k);
    }
}

/// A batch can be unrolled at the back of the command list.
pub proof fn lemma_run_batch_snoc(m: StoreModel, cmds: Seq<CmdModel>, c: CmdModel)
    ensures
        run_batch(m, cmds.push(c)).0 == run_cmd(run_batch(m, cmds).0, c).0,
        run_batch(m, cmds.push(c)).1 == run_batch(m, cmds).1.concat(
            run_cmd(run_batch(m, cmds).0, c).1,
        ),
    decreases cmds.len(),
{
    let s1 = cmds.push(c);
    if cmds.len() == 0 {
        assert(s1.first() == c);
        assert(s1.drop_first() =~= Seq::<CmdModel>::empty());
        let (m1, r1) = run_cmd(m, c);
        assert(run_batch(m, cmds) == (m, ReportModel::empty()));
        assert(run_batch(m1, s1.drop_first()) == (m1, ReportModel::empty()));
        assert(run_batch(m, s1) == (m1, r1.concat(ReportModel::empty())));
        assert(r1.concat(ReportModel::empty()) =~= r1);
        assert(ReportModel::empty().concat(r1) =~= r1);
    } else {
        assert(s1.first() == cmds.first());
        assert(s1.drop_first() =~= cmds.drop_first().push(c));
        let (m1, r1) = run_cmd(m, cmds.first());
        assert(run_batch(m, s1) == (
            run_batch(m1, s1.drop_first()).0,
            r1.concat(run_batch(m1, s1.drop_first()).1),
        ));
        assert(run_batch(m, cmds) == (
            run_batch(m1, cmds.drop_first()).0,
            r1.concat(run_batch(m1, cmds.drop_first()).1),
        ));
        lemma_run_batch_snoc(m1, cmds.drop_first(), c);
        let (m2, r2) = run_batch(m1, cmds.drop_first());
        let r3 = run_cmd(m2, c).1;
        assert(r1.concat(r2.concat(r3)) =~= r1.concat(r2).concat(r3));
    }
}

/// Batch cost can be unrolled at the back of the command list.
pub proof fn lemma_batch_cost_snoc(cmds: Seq<CmdModel>, c: CmdModel)
    ensures
        batch_cost(cmds.push(c)) == batch_cost(cmds) + cmd_cost(c),
    decreases cmds.len(),
{
    let s1 = cmds.push(c);
    if cmds.len() == 0 {
        assert(s1.first() == c);
        assert(s1.drop_first() =~= Seq::<CmdModel>::empty());
        assert(batch_cost(s1.drop_first()) == 0);
        assert(batch_cost(s1) == cmd_cost(c) + batch_cost(s1.drop_first()));
    } else {
        assert(s1.first() == cmds.first());
        assert(s1.drop_first() =~= cmds.drop_first().push(c));
        assert(batch_cost(s1) == cmd_cost(cmds.first()) + batch_cost(cmds.drop_first().push(c)));
        assert(batch_cost(cmds) == cmd_cost(cmds.first()) + batch_cost(cmds.drop_first()));
        lemma_batch_cost_snoc(cmds.drop_first(), c);
    }
}

/// Batch cost splits at any index.
pub proof fn lemma_batch_cost_split(cmds: Seq<CmdModel>, i: int)
    requires
        0 <= i <= cmds.len(),
    ensures
        batch_cost(cmds) == batch_cost(cmds.take(i)) + batch_cost(cmds.skip(i)),
    decreases cmds.len() - i,
{
    if i == cmds.len() {
        assert(cmds.take(i) =~= cmds);
        assert(cmds.skip(i) =~= Seq::<CmdModel>::empty());
    } else {
        lemma_batch_cost_split(cmds, i + 1);
        assert(cmds.take(i + 1) =~= cmds.take(i).push(cmds[i]));
        lemma_batch_cost_snoc(cmds.take(i), cmds[i]);
        assert(cmds.skip(i).first() == cmds[i]);
        assert(cmds.skip(i).drop_first() =~= cmds.skip(i + 1));
        assert(batch_cost(cmds.skip(i)) == cmd_cost(cmds[i]) + batch_cost(cmds.skip(i + 1)));
    }
}

/// Batch cost is never negative.
pub proof fn lemma_batch_cost_nonneg(cmds: Seq<CmdModel>)
    ensures
        0 <= batch_cost(cmds),
    decreases cmds.len(),
{
    if cmds.len() > 0 {
        lemma_batch_cost_nonneg(cmds.drop_first());
    }
}

/// Resolving one key preserves consistency; it touches only the dataset
/// side and allocates at most one identifier.
pub proof fn lemma_apply_key_wf(m: StoreModel, p: int, key: Seq<char>)
    requires
        wf_model(m),
        m.panes.contains_key(p),
    ensures
        ({
            let m2 = apply_key(m, p, key);
            &&& wf_model(m2)
            &&& m2.panes == m.panes
            &&& m2.log == m.log
            &&& m2.queue == m.queue
            &&& m.next_id <= m2.next_id <= m.next_id + 1
            &&& m2.registry.dom() == m.registry.dom().insert(key)
        }),
{
    let m2 = apply_key(m, p, key);
    if m.registry.contains_key(key) {
        assert(m2.registry.dom() =~= m.registry.dom().insert(key));
    } else {
        let d = m.next_id;
        assert(!m.datasets.contains_key(d));
        assert(!m.panes.contains_key(d));
        assert(m2.registry.dom() =~= m.registry.dom().insert(key));
        assert(m2.datasets.dom() =~= m.datasets.dom().insert(d));
        assert(m2.datasets.dom().len() == m.datasets.dom().len() + 1);
        assert(m2.registry.dom().len() == m.registry.dom().len() + 1);
    }
}

/// Resolving a key list preserves consistency; it touches only the dataset
/// side, allocates at most one identifier per key, and registers exactly
/// the listed keys.
pub proof fn lemma_apply_keys_wf(m: StoreModel, p: int, keys: Seq<Seq<char>>)
    requires
        wf_model(m),
        m.panes.contains_key(p),
    ensures
        ({
            let m2 = apply_keys(m, p, keys);
            &&& wf_model(m2)
            &&& m2.panes == m.panes
            &&& m2.log == m.log
            &&& m2.queue == m.queue
            &&& m.next_id <= m2.next_id <= m.next_id + keys.len()
            &&& m2.registry.dom() == m.registry.dom() + keys.to_set()
        }),
    decreases keys.len(),
{
    if keys.len() == 0 {
        assert(keys.to_set() =~= Set::<Seq<char>>::empty());
        assert(m.registry.dom() + keys.to_set() =~= m.registry.dom());
    } else {
        lemma_apply_key_wf(m, p, keys.first());
        let m1 = apply_key(m, p, keys.first());
        lemma_apply_keys_wf(m1, p, keys.drop_first());
        let m2 = apply_keys(m1, p, keys.drop_first());
        assert(keys.to_set() =~= keys.drop_first().to_set().insert(keys.first())) by {
            assert forall|k: Seq<char>| #[trigger] keys.to_set().contains(k) implies
                keys.drop_first().to_set().insert(keys.first()).contains(k) by {
                let i = choose|i: int| 0 <= i < keys.len() && keys[i] == k;
                if i > 0 {
                    assert(keys.drop_first()[i - 1] == k);
                }
            }
            assert forall|k: Seq<char>|
                keys.drop_first().to_set().insert(keys.first()).contains(
                    k,
                ) implies #[trigger] keys.to_set().contains(k) by {
                if keys.drop_first().to_set().contains(k) {
                    let i = choose|i: int|
                        0 <= i < keys.drop_first().len() && keys.drop_first()[i] == k;
                    assert(keys[i + 1] == k);
                }
            }
        }
        assert(m2.registry.dom() =~= m.registry.dom() + keys.to_set());
    }
}

/// Key resolution can be split at any index.
pub proof fn lemma_apply_keys_split(m: StoreModel, p: int, keys: Seq<Seq<char>>, j: int)
    requires
        0 <= j <= keys.len(),
    ensures
        apply_keys(m, p, keys) == apply_keys(apply_keys(m, p, keys.take(j)), p, keys.skip(j)),
    decreases keys.len() - j,
{
    if j == keys.len() {
        assert(keys.take(j) =~= keys);
        assert(keys.skip(j) =~= Seq::<Seq<char>>::empty());
    } else {
        lemma_apply_keys_split(m, p, keys, j + 1);
        let t_j = apply_keys(m, p, keys.take(j));
        assert(keys.take(j + 1) =~= keys.take(j).push(keys[j]));
        lemma_apply_keys_snoc(m, p, keys.take(j), keys[j]);
        assert(keys.skip(j).first() == keys[j]);
        assert(keys.skip(j).drop_first() =~= keys.skip(j + 1));
        assert(apply_keys(t_j, p, keys.skip(j)) == apply_keys(
            apply_key(t_j, p, keys[j]),
            p,
            keys.skip(j + 1),
        ));
    }
}

/// Key resolution never rebinds a registered key and never drops an edge.
pub proof fn lemma_apply_keys_monotone(m: StoreModel, p: int, keys: Seq<Seq<char>>)
    ensures
        forall|k: Seq<char>|
            #[trigger] m.registry.contains_key(k) ==> apply_keys(
                m,
                p,
                keys,
            ).registry.contains_key(k) && apply_keys(m, p, keys).registry[k] == m.registry[k],
        forall|e: (int, int)|
            #[trigger] m.edges.contains(e) ==> apply_keys(m, p, keys).edges.contains(e),
    decreases keys.len(),
{
    if keys.len() > 0 {
        let m1 = apply_key(m, p, keys.first());
        lemma_apply_keys_monotone(m1, p, keys.drop_first());
        let r = apply_keys(m, p, keys);
        assert(r == apply_keys(m1, p, keys.drop_first()));
        assert forall|k: Seq<char>| #[trigger] m.registry.contains_key(k) implies
            r.registry.contains_key(k) && r.registry[k] == m.registry[k] by {
            assert(m1.registry.contains_key(k) && m1.registry[k] == m.registry[k]);
        }
        assert forall|e: (int, int)| #[trigger] m.edges.contains(e) implies r.edges.contains(
            e,
        ) by {
            assert(m1.edges.contains(e));
        }
    }
}

/// Resolving a key leaves it registered, with its edge to `p` present.
pub proof fn lemma_apply_key_resolves(m: StoreModel, p: int, key: Seq<char>)
    ensures
        apply_key(m, p, key).registry.contains_key(key),
        apply_key(m, p, key).edges.contains((p, apply_key(m, p, key).registry[key])),
{
}

/// The keys of a list that `m` has not yet registered.
pub open spec fn fresh_keys(m: StoreModel, keys: Seq<Seq<char>>) -> Set<Seq<char>> {
    keys.to_set().difference(m.registry.dom())
}

/// A key list's set of keys splits off its first element.
pub proof fn lemma_to_set_first(keys: Seq<Seq<char>>)
    requires
        keys.len() > 0,
    ensures
        keys.to_set() == keys.drop_first().to_set().insert(keys.first()),
{
    assert(keys.to_set() =~= keys.drop_first().to_set().insert(keys.first())) by {
        assert forall|k: Seq<char>| #[trigger] keys.to_set().contains(k) implies
            keys.drop_first().to_set().insert(keys.first()).contains(k) by {
            let i = choose|i: int| 0 <= i < keys.len() && keys[i] == k;
            if i > 0 {
                assert(keys.drop_first()[i - 1] == k);
            }
        }
        assert forall|k: Seq<char>|
            keys.drop_first().to_set().insert(keys.first()).contains(
                k,
            ) implies #[trigger] keys.to_set().contains(k) by {
            if keys.drop_first().to_set().contains(k) {
                let i = choose|i: int|
                    0 <= i < keys.drop_first().len() && keys.drop_first()[i] == k;
                assert(keys[i + 1] == k);
            }
        }
    }
}

/// Key resolution registers exactly the listed keys.
pub proof fn lemma_apply_keys_dom(m: StoreModel, p: int, keys: Seq<Seq<char>>)
    ensures
        apply_keys(m, p, keys).registry.dom() == m.registry.dom() + keys.to_set(),
    decreases keys.len(),
{
    if keys.len() == 0 {
        assert(m.registry.dom() + keys.to_set() =~= m.registry.dom());
    } else {
        let m1 = apply_key(m, p, keys.first());
        lemma_apply_keys_dom(m1, p, keys.drop_first());
        lemma_to_set_first(keys);
        assert(m1.registry.dom() =~= m.registry.dom().insert(keys.first()));
        assert(apply_keys(m, p, keys).registry.dom() =~= m.registry.dom() + keys.to_set());
    }
}

/// Key resolution never decreases the allocation counter.
pub proof fn lemma_apply_keys_next_monotone(m: StoreModel, p: int, keys: Seq<Seq<char>>)
    ensures
        m.next_id <= apply_keys(m, p, keys).next_id,
    decreases keys.len(),
{
    if keys.len() > 0 {
        lemma_apply_keys_next_monotone(apply_key(m, p, keys.first()), p, keys.drop_first());
    }
}

/// Some listed key is registered to dataset `d` in state `r`.
pub open spec fn resolves_to(r: StoreModel, keys: Seq<Seq<char>>, d: int) -> bool {
    exists|k: Seq<char>|
        #[trigger] keys.to_set().contains(k) && r.registry.contains_key(k) && r.registry[k] == d
}

/// The edges after key resolution are the old edges plus one edge from
/// `p` to the dataset each listed key ends up registered to.
pub proof fn lemma_apply_keys_edges(m: StoreModel, p: int, keys: Seq<Seq<char>>)
    ensures
        ({
            let r = apply_keys(m, p, keys);
            forall|e: (int, int)|
                #[trigger] r.edges.contains(e) <==> m.edges.contains(e) || (e.0 == p
                    && resolves_to(r, keys, e.1))
        }),
    decreases keys.len(),
{
    let r = apply_keys(m, p, keys);
    if keys.len() == 0 {
        assert(keys.to_set() =~= Set::<Seq<char>>::empty());
        assert forall|e: (int, int)| #[trigger] r.edges.contains(e) implies m.edges.contains(e)
            || (e.0 == p && resolves_to(r, keys, e.1)) by {}
    } else {
        let k0 = keys.first();
        let m1 = apply_key(m, p, k0);
        lemma_apply_keys_edges(m1, p, keys.drop_first());
        lemma_to_set_first(keys);
        lemma_apply_key_resolves(m, p, k0);
        lemma_apply_keys_monotone(m1, p, keys.drop_first());
        lemma_apply_keys_dom(m1, p, keys.drop_first());
        assert(r == apply_keys(m1, p, keys.drop_first()));
        assert(m1.edges =~= m.edges.insert((p, m1.registry[k0])));
        assert(r.registry.contains_key(k0) && r.registry[k0] == m1.registry[k0]);
        assert forall|e: (int, int)| #[trigger] r.edges.contains(e) implies m.edges.contains(e)
            || (e.0 == p && resolves_to(r, keys, e.1)) by {
            if !m.edges.contains(e) {
                if m1.edges.contains(e) {
                    assert(e == (p, m1.registry[k0]));
                    assert(keys.to_set().contains(k0) && r.registry.contains_key(k0)
                        && r.registry[k0] == e.1);
                } else {
                    assert(resolves_to(r, keys.drop_first(), e.1));
                    let k = choose|k: Seq<char>|
                        #[trigger] keys.drop_first().to_set().contains(k)
                            && r.registry.contains_key(k) && r.registry[k] == e.1;
                    assert(keys.to_set().contains(k));
                }
            }
        }
        assert forall|e: (int, int)|
            m.edges.contains(e) || (e.0 == p && resolves_to(r, keys, e.1)) implies #[trigger] r
            .edges.contains(e) by {
            if m.edges.contains(e) {
                assert(m1.edges.contains(e));
            } else {
                let k = choose|k: Seq<char>|
                    #[trigger] keys.to_set().contains(k) && r.registry.contains_key(k)
                        && r.registry[k] == e.1;
                if k == k0 {
                    assert(m1.edges.contains((p, m1.registry[k0])));
                } else {
                    assert(keys.drop_first().to_set().contains(k));
                    assert(resolves_to(r, keys.drop_first(), e.1));
                }
            }
        }
    }
}

/// A key registered during resolution is bound to an identifier from the
/// block the resolution allocated.
pub proof fn lemma_apply_keys_values(m: StoreModel, p: int, keys: Seq<Seq<char>>)
    ensures
        ({
            let r = apply_keys(m, p, keys);
            forall|k: Seq<char>|
                !m.registry.contains_key(k) && #[trigger] r.registry.contains_key(k)
                    ==> m.next_id <= r.registry[k] < r.next_id
        }),
    decreases keys.len(),
{
    let r = apply_keys(m, p, keys);
    if keys.len() > 0 {
        let k0 = keys.first();
        let m1 = apply_key(m, p, k0);
        lemma_apply_keys_values(m1, p, keys.drop_first());
        lemma_apply_keys_monotone(m1, p, keys.drop_first());
        lemma_apply_keys_next_monotone(m1, p, keys.drop_first());
        assert forall|k: Seq<char>|
            !m.registry.contains_key(k) && #[trigger] r.registry.contains_key(k) implies
            m.next_id <= r.registry[k] < r.next_id by {
            if m1.registry.contains_key(k) {
                assert(k == k0);
                assert(m1.registry[k0] == m.next_id);
                assert(r.registry[k0] == m1.registry[k0]);
                assert(m1.next_id == m.next_id + 1);
            }
        }
    }
}

/// Every identifier in the block a resolution allocated is bound to some
/// listed key.
pub proof fn lemma_apply_keys_surjective(m: StoreModel, p: int, keys: Seq<Seq<char>>)
    ensures
        ({
            let r = apply_keys(m, p, keys);
            forall|d: int| m.next_id <= d < r.next_id ==> #[trigger] resolves_to(r, keys, d)
        }),
    decreases keys.len(),
{
    let r = apply_keys(m, p, keys);
    if keys.len() > 0 {
        let k0 = keys.first();
        let m1 = apply_key(m, p, k0);
        lemma_apply_keys_surjective(m1, p, keys.drop_first());
        lemma_apply_key_resolves(m, p, k0);
        lemma_apply_keys_monotone(m1, p, keys.drop_first());
        lemma_apply_keys_dom(m1, p, keys.drop_first());
        lemma_to_set_first(keys);
        assert forall|d: int| m.next_id <= d < r.next_id implies #[trigger] resolves_to(
            r,
            keys,
            d,
        ) by {
            if d < m1.next_id {
                assert(m1.registry[k0] == d);
                assert(keys.to_set().contains(k0) && r.registry.contains_key(k0)
                    && r.registry[k0] == d);
            } else {
                assert(resolves_to(r, keys.drop_first(), d));
                let k = choose|k: Seq<char>|
                    #[trigger] keys.drop_first().to_set().contains(k)
                        && r.registry.contains_key(k) && r.registry[k] == d;
                assert(keys.to_set().contains(k));
            }
        }
    }
}

/// Key resolution allocates exactly one identifier per distinct key not
/// yet registered.
pub proof fn lemma_apply_keys_count(m: StoreModel, p: int, keys: Seq<Seq<char>>)
    ensures
        apply_keys(m, p, keys).next_id == m.next_id + fresh_keys(m, keys).len(),
    decreases keys.len(),
{
    vstd::seq_lib::seq_to_set_is_finite(keys);
    if keys.len() == 0 {
        assert(fresh_keys(m, keys) =~= Set::<Seq<char>>::empty());
    } else {
        let k0 = keys.first();
        let m1 = apply_key(m, p, k0);
        lemma_apply_keys_count(m1, p, keys.drop_first());
        lemma_to_set_first(keys);
        vstd::seq_lib::seq_to_set_is_finite(keys.drop_first());
        if m.registry.contains_key(k0) {
            assert(fresh_keys(m1, keys.drop_first()) =~= fresh_keys(m, keys));
        } else {
            assert(fresh_keys(m, keys) =~= fresh_keys(m1, keys.drop_first()).insert(k0));
            assert(!fresh_keys(m1, keys.drop_first()).contains(k0));
            assert(fresh_keys(m1, keys.drop_first()).finite());
            assert(fresh_keys(m, keys).len() == fresh_keys(m1, keys.drop_first()).len() + 1);
        }
    }
}

/// A key that repeats an earlier occurrence of itself resolves to nothing:
/// the state after the key list equals the state after the list with the
/// repeat removed.
pub proof fn lemma_duplicate_key_dropped(m: StoreModel, p: int, keys: Seq<Seq<char>>, j: int)
    requires
        0 <= j < keys.len(),
        exists|i: int| 0 <= i < j && keys[i] == keys[j],
    ensures
        apply_keys(m, p, keys) == apply_keys(m, p, keys.remove(j)),
{
    let i = choose|i: int| 0 <= i < j && keys[i] == keys[j];
    let k = keys[j];
    let t_i = apply_keys(m, p, keys.take(i));
    let t_i1 = apply_keys(m, p, keys.take(i + 1));
    assert(keys.take(i + 1) =~= keys.take(i).push(k));
    lemma_apply_keys_snoc(m, p, keys.take(i), k);
    assert(t_i1 == apply_key(t_i, p, k));
    lemma_apply_key_resolves(t_i, p, k);
    let t_j = apply_keys(m, p, keys.take(j));
    lemma_apply_keys_split(m, p, keys.take(j), i + 1);
    assert(keys.take(j).take(i + 1) =~= keys.take(i + 1));
    let mid = keys.take(j).skip(i + 1);
    assert(t_j == apply_keys(t_i1, p, mid));
    lemma_apply_keys_monotone(t_i1, p, mid);
    assert(t_j.registry.contains_key(k) && t_j.registry[k] == t_i1.registry[k]);
    assert(t_j.edges.contains((p, t_j.registry[k])));
    assert(apply_key(t_j, p, k).edges =~= t_j.edges);
    assert(apply_key(t_j, p, k) =~= t_j);
    lemma_apply_keys_split(m, p, keys, j);
    assert(keys.skip(j).first() == k);
    assert(keys.skip(j).drop_first() =~= keys.skip(j + 1));
    assert(apply_keys(t_j, p, keys.skip(j)) == apply_keys(
        apply_key(t_j, p, k),
        p,
        keys.skip(j + 1),
    ));
    lemma_apply_keys_split(m, p, keys.remove(j), j);
    assert(keys.remove(j).take(j) =~= keys.take(j));
    assert(keys.remove(j).skip(j) =~= keys.skip(j + 1));
}

/// Creating a pane preserves consistency, allocates at least one and at
/// most `1 + keys.len()` identifiers, adds exactly the listed keys to the
/// registry, adds exactly the new pane, and appends one log entry.
pub proof fn lemma_apply_create_wf(m: StoreModel, keys: Seq<Seq<char>>)
    requires
        wf_model(m),
    ensures
        ({
            let m2 = apply_create(m, keys);
            &&& wf_model(m2)
            &&& m2.queue == m.queue
            &&& m.next_id < m2.next_id <= m.next_id + 1 + keys.len()
            &&& m2.registry.dom() == m.registry.dom() + keys.to_set()
            &&& m2.panes.dom() == m.panes.dom().insert(m.next_id)
            &&& m2.log == m.log.push((m.next_id, keys))
        }),
{
    let p = m.next_id;
    let m1 = StoreModel { panes: m.panes.insert(p, default_attrs()), next_id: m.next_id + 1, ..m };
    assert(wf_model(m1)) by {
        assert(!m.datasets.contains_key(p));
    }
    lemma_apply_keys_wf(m1, p, keys);
    let m2 = apply_keys(m1, p, keys);
    assert(m2.panes.dom() =~= m.panes.dom().insert(p));
    assert(apply_create(m, keys).log =~= m.log.push((p, keys)));
}

/// Deleting a live pane preserves consistency and touches only the pane
/// side: datasets, the registry, and the allocation counter are unchanged.
pub proof fn lemma_apply_delete_wf(m: StoreModel, p: int)
    requires
        wf_model(m),
    ensures
        ({
            let m2 = apply_delete(m, p);
            &&& wf_model(m2)
            &&& m2.datasets == m.datasets
            &&& m2.registry == m.registry
            &&& m2.next_id == m.next_id
            &&& m2.queue == m.queue
            &&& m2.panes == m.panes.remove(p)
        }),
{
    let m2 = apply_delete(m, p);
    lemma_remove_key_contains(m.log, p);
    assert forall|i: int| 0 <= i < m2.log.len() implies m2.panes.contains_key(
        (#[trigger] m2.log[i]).0,
    ) by {
        assert(m2.log.contains(m2.log[i]));
        assert(m.log.contains(m2.log[i]) && m2.log[i].0 != p);
        let j = choose|j: int| 0 <= j < m.log.len() && m.log[j] == m2.log[i];
        assert(m.panes.contains_key(m.log[j].0));
    }
}

/// Running one command preserves consistency, leaves the pending queue
/// alone, allocates at most `cmd_cost` identifiers, and registers exactly
/// the keys the command references.
pub proof fn lemma_run_cmd_wf(m: StoreModel, c: CmdModel)
    requires
        wf_model(m),
    ensures
        ({
            let m2 = run_cmd(m, c).0;
            &&& wf_model(m2)
            &&& m2.queue == m.queue
            &&& m.next_id <= m2.next_id <= m.next_id + cmd_cost(c)
            &&& m2.registry.dom() == m.registry.dom() + cmd_keys(c)
        }),
{
    match c {
        CmdModel::Create { keys } => {
            lemma_apply_create_wf(m, keys);
        },
        CmdModel::Delete { pane } => {
            if m.panes.contains_key(pane) {
                lemma_apply_delete_wf(m, pane);
            }
            assert(run_cmd(m, c).0.registry.dom() =~= m.registry.dom() + cmd_keys(c));
        },
    }
}

/// Running a batch preserves consistency, leaves the pending queue alone,
/// allocates at most `batch_cost` identifiers, and registers exactly the
/// keys the batch references.
pub proof fn lemma_run_batch_wf(m: StoreModel, cmds: Seq<CmdModel>)
    requires
        wf_model(m),
    ensures
        ({
            let m2 = run_batch(m, cmds).0;
            &&& wf_model(m2)
            &&& m2.queue == m.queue
            &&& m.next_id <= m2.next_id <= m.next_id + batch_cost(cmds)
            &&& m2.registry.dom() == m.registry.dom() + referenced_keys(cmds)
        }),
    decreases cmds.len(),
{
    if cmds.len() == 0 {
        assert(m.registry.dom() + referenced_keys(cmds) =~= m.registry.dom());
    } else {
        lemma_run_cmd_wf(m, cmds.first());
        let m1 = run_cmd(m, cmds.first()).0;
        lemma_run_batch_wf(m1, cmds.drop_first());
        lemma_batch_cost_nonneg(cmds.drop_first());
        let m2 = run_batch(m1, cmds.drop_first()).0;
        assert(m2.registry.dom() =~= m.registry.dom() + referenced_keys(cmds));
    }
}

} // verus!
