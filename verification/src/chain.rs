use vstd::prelude::*;

use crate::order::older;
use crate::overrides::{override_entries, override_text};

use crate::version::{GameVersion, PatchVersion, VersionError, VersionModel, parse_version, version_error, version_text};

verus! {

/// One patch file: where it is and how large.
#[derive(Debug, Clone, PartialEq, Eq)]
pub struct Patch {
    pub url: String,
    pub size: i64,
}

impl Patch {
    /// A copy of this patch.
    pub fn duplicate(&self) -> (p: Patch)
        ensures
            p == *self,
    {
        Patch { url: self.url.clone(), size: self.size }
    }
}

/// A version of a repository as Thaliak lists it.
#[derive(Debug, Clone)]
pub struct Node {
    pub version: GameVersion,
    pub is_active: bool,
    pub prerequisites: Vec<GameVersion>,
    pub patches: Vec<Patch>,
}

/// A node as plain values.
pub ghost struct NodeModel {
    pub version: VersionModel,
    pub is_active: bool,
    pub prerequisites: Seq<VersionModel>,
    pub patches: Seq<Patch>,
}

impl View for Node {
    type V = NodeModel;

    open spec fn view(&self) -> NodeModel {
        NodeModel {
            version: self.version@,
            is_active: self.is_active,
            prerequisites: Seq::new(self.prerequisites@.len(), |i: int| self.prerequisites@[i]@),
            patches: self.patches@,
        }
    }
}

pub open spec fn node_models(ns: Seq<Node>) -> Seq<NodeModel> {
    Seq::new(ns.len(), |i: int| ns[i]@)
}

/// A version's place in the graph: the patch that reaches it, and the version that patch is
/// applied on top of.
#[derive(Debug)]
pub struct Step {
    pub version: GameVersion,
    pub patch: Patch,
    pub parent: Option<GameVersion>,
}

pub ghost struct StepModel {
    pub version: VersionModel,
    pub patch: Patch,
    pub parent: Option<VersionModel>,
}

impl View for Step {
    type V = StepModel;

    open spec fn view(&self) -> StepModel {
        StepModel {
            version: self.version@,
            patch: self.patch,
            parent: match self.parent {
                Some(p) => Some(p@),
                None => None,
            },
        }
    }
}

/// Why a chain or forest could not be built.
#[derive(Debug)]
pub enum ChainError {
    /// The version states no prerequisite at all: Thaliak dropped the edge.
    NoPrerequisite(GameVersion),
    /// The graph names a version it does not hold.
    MissingVersion(GameVersion),
    /// The version has other than exactly one patch.
    PatchCount(GameVersion, usize),
    /// Following predecessors from the version comes back around without end.
    Cycle(GameVersion),
    /// An entry of the override table is not a version.
    BadOverride(VersionError),
}

/// A chain error as plain values.
pub ghost enum ChainFault {
    NoPrerequisite(VersionModel),
    MissingVersion(VersionModel),
    PatchCount(VersionModel, nat),
    Cycle(VersionModel),
    BadOverride(VersionError),
}

impl View for ChainError {
    type V = ChainFault;

    open spec fn view(&self) -> ChainFault {
        match self {
            ChainError::NoPrerequisite(v) => ChainFault::NoPrerequisite(v@),
            ChainError::MissingVersion(v) => ChainFault::MissingVersion(v@),
            ChainError::PatchCount(v, n) => ChainFault::PatchCount(v@, *n as nat),
            ChainError::Cycle(v) => ChainFault::Cycle(v@),
            ChainError::BadOverride(e) => ChainFault::BadOverride(*e),
        }
    }
}

/// Overrides as plain values: a version, and what it follows instead.
pub open spec fn override_models(ov: Seq<(GameVersion, Option<GameVersion>)>) -> Seq<(VersionModel, Option<VersionModel>)> {
    Seq::new(
        ov.len(),
        |i: int|
            (
                ov[i].0@,
                match ov[i].1 {
                    Some(t) => Some(t@),
                    None => None,
                },
            ),
    )
}

/// The last node holding version `v`, as a map keyed by version keeps the last.
pub open spec fn lookup(ns: Seq<NodeModel>, v: VersionModel) -> Option<int>
    decreases ns.len(),
{
    if ns.len() == 0 {
        None
    } else if ns.last().version == v {
        Some(ns.len() - 1)
    } else {
        lookup(ns.drop_last(), v)
    }
}

/// The override for version `v`, the last entry naming it winning.
pub open spec fn override_of(ov: Seq<(VersionModel, Option<VersionModel>)>, v: VersionModel) -> Option<
    Option<VersionModel>,
>
    decreases ov.len(),
{
    if ov.len() == 0 {
        None
    } else if ov.last().0 == v {
        Some(ov.last().1)
    } else {
        override_of(ov.drop_last(), v)
    }
}

/// The nodes of the prerequisites older than `v`, in order, or the first of them the
/// graph lacks.
pub open spec fn older_prereqs(ns: Seq<NodeModel>, ps: Seq<VersionModel>, v: VersionModel) -> Result<
    Seq<int>,
    ChainFault,
>
    decreases ps.len(),
{
    if ps.len() == 0 {
        Ok(Seq::empty())
    } else {
        match older_prereqs(ns, ps.drop_last(), v) {
            Err(e) => Err(e),
            Ok(s) => if older(ps.last(), v) {
                match lookup(ns, ps.last()) {
                    Some(i) => Ok(s.push(i)),
                    None => Err(ChainFault::MissingVersion(ps.last())),
                }
            } else {
                Ok(s)
            },
        }
    }
}

/// The newest of the candidate nodes, the last of equally new ones; an active version
/// only takes active candidates.
pub open spec fn newest(ns: Seq<NodeModel>, idx: Seq<int>, active: bool) -> Option<int>
    decreases idx.len(),
{
    if idx.len() == 0 {
        None
    } else {
        let rest = newest(ns, idx.drop_last(), active);
        let i = idx.last();
        if active && !ns[i].is_active {
            rest
        } else {
            match rest {
                None => Some(i),
                Some(b) => if older(ns[i].version, ns[b].version) {
                    Some(b)
                } else {
                    Some(i)
                },
            }
        }
    }
}

/// The node a patch of node `k` is applied on top of, or none where a lineage begins.
///
/// An override decides first. Otherwise a version with no prerequisite at all is refused:
/// Thaliak dropped its edge. Among the prerequisites, only those older than the version
/// count (a lineage's start lists its successors), and of those the newest is taken.
pub open spec fn pred_spec(ov: Seq<(VersionModel, Option<VersionModel>)>, ns: Seq<NodeModel>, k: int) -> Result<
    Option<int>,
    ChainFault,
> {
    let node = ns[k];
    match override_of(ov, node.version) {
        Some(None) => Ok(None),
        Some(Some(rep)) => match lookup(ns, rep) {
            Some(j) => Ok(Some(j)),
            None => Err(ChainFault::MissingVersion(rep)),
        },
        None => if node.prerequisites.len() == 0 {
            Err(ChainFault::NoPrerequisite(node.version))
        } else {
            match older_prereqs(ns, node.prerequisites, node.version) {
                Err(e) => Err(e),
                Ok(idx) => Ok(newest(ns, idx, node.is_active)),
            }
        },
    }
}

/// A version's one patch.
pub open spec fn sole_patch_spec(node: NodeModel) -> Result<Patch, ChainFault> {
    if node.patches.len() == 1 {
        Ok(node.patches[0])
    } else {
        Err(ChainFault::PatchCount(node.version, node.patches.len()))
    }
}

/// The patches leading to node `cur`, oldest first, walking at most `fuel` steps.
pub open spec fn chain_spec(
    ov: Seq<(VersionModel, Option<VersionModel>)>,
    ns: Seq<NodeModel>,
    cur: Option<int>,
    fuel: nat,
) -> Result<Seq<(VersionModel, Patch)>, ChainFault>
    decreases fuel,
{
    match cur {
        None => Ok(Seq::empty()),
        Some(k) => if fuel == 0 {
            Err(ChainFault::Cycle(ns[k].version))
        } else {
            match sole_patch_spec(ns[k]) {
                Err(e) => Err(e),
                Ok(p) => match pred_spec(ov, ns, k) {
                    Err(e) => Err(e),
                    Ok(next) => match chain_spec(ov, ns, next, (fuel - 1) as nat) {
                        Err(e) => Err(e),
                        Ok(rest) => Ok(rest.push((ns[k].version, p))),
                    },
                },
            }
        },
    }
}

/// The step of node `k`.
pub open spec fn step_spec(ov: Seq<(VersionModel, Option<VersionModel>)>, ns: Seq<NodeModel>, k: int) -> Result<
    StepModel,
    ChainFault,
> {
    match sole_patch_spec(ns[k]) {
        Err(e) => Err(e),
        Ok(p) => match pred_spec(ov, ns, k) {
            Err(e) => Err(e),
            Ok(next) => Ok(
                StepModel {
                    version: ns[k].version,
                    patch: p,
                    parent: match next {
                        Some(j) => Some(ns[j].version),
                        None => None,
                    },
                },
            ),
        },
    }
}

pub proof fn lemma_lookup(ns: Seq<NodeModel>, v: VersionModel)
    ensures
        lookup(ns, v) matches Some(i) ==> 0 <= i < ns.len() && ns[i].version == v && forall|j: int|
            i < j < ns.len() ==> #[trigger] ns[j].version != v,
        lookup(ns, v) is None ==> forall|j: int| 0 <= j < ns.len() ==> #[trigger] ns[j].version != v,
    decreases ns.len(),
{
    if ns.len() > 0 {
        lemma_lookup(ns.drop_last(), v);
        if ns.last().version != v {
            assert forall|j: int| 0 <= j < ns.len() - 1 implies #[trigger] ns[j].version == ns.drop_last()[j].version by {}
        }
    }
}

/// The node of version `v`, the last if several hold it.
fn find_node(nodes: &[Node], v: &GameVersion) -> (r: Option<usize>)
    ensures
        match r {
            Some(i) => lookup(node_models(nodes@), v@) == Some(i as int),
            None => lookup(node_models(nodes@), v@) is None,
        },
{
    let ghost ns = node_models(nodes@);
    let mut k: usize = nodes.len();
    assert(ns.subrange(0, k as int) =~= ns);
    while k > 0
        invariant
            ns == node_models(nodes@),
            k <= nodes@.len(),
            lookup(ns, v@) == lookup(ns.subrange(0, k as int), v@),
        decreases k,
    {
        let ghost sub = ns.subrange(0, k as int);
        proof {
            assert(sub.drop_last() =~= ns.subrange(0, k - 1));
            assert(sub.last() == nodes@[k - 1]@);
        }
        if nodes[k - 1].version == *v {
            return Some(k - 1);
        }
        k = k - 1;
    }
    None
}


pub open spec fn opt_int(o: Option<usize>) -> Option<int> {
    match o {
        Some(i) => Some(i as int),
        None => None,
    }
}

/// The last override entry for version `v`.
fn find_override(ov: &Vec<(GameVersion, Option<GameVersion>)>, v: &GameVersion) -> (r: Option<usize>)
    ensures
        match r {
            Some(i) => i < ov@.len() && override_of(override_models(ov@), v@) == Some(
                override_models(ov@)[i as int].1,
            ),
            None => override_of(override_models(ov@), v@) is None,
        },
{
    let ghost om = override_models(ov@);
    let mut k: usize = ov.len();
    assert(om.subrange(0, k as int) =~= om);
    while k > 0
        invariant
            om == override_models(ov@),
            k <= ov@.len(),
            override_of(om, v@) == override_of(om.subrange(0, k as int), v@),
        decreases k,
    {
        let ghost sub = om.subrange(0, k as int);
        proof {
            assert(sub.drop_last() =~= om.subrange(0, k - 1));
        }
        if ov[k - 1].0 == *v {
            return Some(k - 1);
        }
        k = k - 1;
    }
    None
}

/// The newest prerequisite of node `k` older than it.
fn newest_prereq(nodes: &[Node], k: usize) -> (r: Result<Option<usize>, ChainError>)
    requires
        k < nodes@.len(),
    ensures
        match r {
            Ok(o) => older_prereqs(
                node_models(nodes@),
                node_models(nodes@)[k as int].prerequisites,
                node_models(nodes@)[k as int].version,
            ) matches Ok(idx) && newest(node_models(nodes@), idx, nodes@[k as int].is_active) == opt_int(o),
            Err(e) => older_prereqs(
                node_models(nodes@),
                node_models(nodes@)[k as int].prerequisites,
                node_models(nodes@)[k as int].version,
            ) == Err::<Seq<int>, ChainFault>(e@),
        },
{
    let ghost ns = node_models(nodes@);
    let node = &nodes[k];
    let ghost ps = ns[k as int].prerequisites;
    let ghost v = ns[k as int].version;
    let ghost active = node.is_active;
    let mut best: Option<usize> = None;
    let ghost mut idx: Seq<int> = Seq::empty();
    let mut i: usize = 0;
    assert(ps.take(0) =~= Seq::<VersionModel>::empty());
    while i < node.prerequisites.len()
        invariant
            ns == node_models(nodes@),
            node == &nodes@[k as int],
            k < nodes@.len(),
            ps == ns[k as int].prerequisites,
            v == ns[k as int].version,
            active == node.is_active,
            i <= ps.len(),
            ps.len() == node.prerequisites@.len(),
            older_prereqs(ns, ps.take(i as int), v) == Ok::<Seq<int>, ChainFault>(idx),
            newest(ns, idx, active) == opt_int(best),
            best matches Some(b) ==> b < ns.len(),
            forall|j: int| 0 <= j < idx.len() ==> 0 <= #[trigger] idx[j] < ns.len(),
        decreases ps.len() - i,
    {
        let p = &node.prerequisites[i];
        let ghost t = ps.take(i + 1);
        proof {
            assert(t.drop_last() =~= ps.take(i as int));
            assert(t.last() == p@);
        }
        if p.0.compare(&node.version.0) < 0 {
            match find_node(nodes, p) {
                None => {
                    proof {
                        lemma_older_prereqs_prefix_error(ns, ps, v, i as int + 1);
                    }
                    return Err(ChainError::MissingVersion(p.duplicate()));
                },
                Some(j) => {
                    let ghost old_idx = idx;
                    proof {
                        lemma_lookup(ns, p@);
                        idx = idx.push(j as int);
                        assert(idx.drop_last() =~= old_idx);
                        assert(ns[j as int] == nodes@[j as int]@);
                    }
                    if !node.is_active || nodes[j].is_active {
                        best = match best {
                            None => Some(j),
                            Some(b) => {
                                proof {
                                    assert(ns[b as int] == nodes@[b as int]@);
                                }
                                if nodes[j].version.0.compare(&nodes[b].version.0) < 0 {
                                    Some(b)
                                } else {
                                    Some(j)
                                }
                            },
                        };
                    }
                    proof {
                        assert(idx.drop_last() =~= idx.subrange(0, idx.len() - 1));
                        assert(ns[j as int] == nodes@[j as int]@);
                    }
                },
            }
        }
        i = i + 1;
    }
    proof {
        assert(ps.take(ps.len() as int) =~= ps);
    }
    Ok(best)
}

/// An error among the first prerequisites is the error of them all.
proof fn lemma_older_prereqs_prefix_error(ns: Seq<NodeModel>, ps: Seq<VersionModel>, v: VersionModel, i: int)
    requires
        0 <= i <= ps.len(),
        older_prereqs(ns, ps.take(i), v) is Err,
    ensures
        older_prereqs(ns, ps, v) == older_prereqs(ns, ps.take(i), v),
    decreases ps.len() - i,
{
    if i < ps.len() {
        let t = ps.take(i + 1);
        assert(t.drop_last() =~= ps.take(i));
        lemma_older_prereqs_prefix_error(ns, ps, v, i + 1);
    } else {
        assert(ps.take(i) =~= ps);
    }
}


pub open spec fn result_int(r: Result<Option<usize>, ChainError>) -> Result<Option<int>, ChainFault> {
    match r {
        Ok(o) => Ok(opt_int(o)),
        Err(e) => Err(e@),
    }
}

/// The node a patch of node `k` is applied on top of, or none where a lineage begins.
fn predecessor(ov: &Vec<(GameVersion, Option<GameVersion>)>, nodes: &[Node], k: usize) -> (r: Result<
    Option<usize>,
    ChainError,
>)
    requires
        k < nodes@.len(),
    ensures
        result_int(r) == pred_spec(override_models(ov@), node_models(nodes@), k as int),
        r matches Ok(Some(j)) ==> j < nodes@.len(),
{
    let ghost ns = node_models(nodes@);
    let node = &nodes[k];
    proof {
        assert(ns[k as int] == node@);
    }
    match find_override(ov, &node.version) {
        Some(i) => match &ov[i].1 {
            None => Ok(None),
            Some(rep) => match find_node(nodes, rep) {
                Some(j) => {
                    proof {
                        lemma_lookup(ns, rep@);
                    }
                    Ok(Some(j))
                },
                None => Err(ChainError::MissingVersion(rep.duplicate())),
            },
        },
        None => {
            if node.prerequisites.len() == 0 {
                return Err(ChainError::NoPrerequisite(node.version.duplicate()));
            }
            let r = newest_prereq(nodes, k);
            proof {
                if r matches Ok(Some(j)) {
                    let idx = older_prereqs(ns, ns[k as int].prerequisites, ns[k as int].version)->Ok_0;
                    lemma_older_prereqs_in_range(ns, ns[k as int].prerequisites, ns[k as int].version);
                    lemma_newest_member(ns, idx, node.is_active);
                }
            }
            r
        },
    }
}

/// Every node the older prerequisites name is a node of the graph, older than `v` and
/// the last holding its version.
pub proof fn lemma_older_prereqs_in_range(ns: Seq<NodeModel>, ps: Seq<VersionModel>, v: VersionModel)
    ensures
        older_prereqs(ns, ps, v) matches Ok(idx) ==> forall|j: int|
            0 <= j < idx.len() ==> 0 <= #[trigger] idx[j] < ns.len() && older(ns[idx[j]].version, v) && lookup(
                ns,
                ns[idx[j]].version,
            ) == Some(idx[j]),
    decreases ps.len(),
{
    if ps.len() > 0 {
        lemma_older_prereqs_in_range(ns, ps.drop_last(), v);
        lemma_lookup(ns, ps.last());
    }
}

/// The newest candidate is one of the candidates.
pub proof fn lemma_newest_member(ns: Seq<NodeModel>, idx: Seq<int>, active: bool)
    ensures
        newest(ns, idx, active) matches Some(b) ==> idx.contains(b),
    decreases idx.len(),
{
    if idx.len() > 0 {
        lemma_newest_member(ns, idx.drop_last(), active);
        if let Some(b) = newest(ns, idx.drop_last(), active) {
            let k = choose|k: int| 0 <= k < idx.drop_last().len() && idx.drop_last()[k] == b;
            assert(idx[k] == b);
        }
        assert(idx[idx.len() - 1] == idx.last());
    }
}

/// The newest candidate is eligible (active where the version is active) and no eligible
/// candidate is newer than it; where none is picked, no candidate is eligible.
pub proof fn lemma_newest_is_newest(ns: Seq<NodeModel>, idx: Seq<int>, active: bool)
    ensures
        newest(ns, idx, active) matches Some(b) ==> {
            &&& (active ==> ns[b].is_active)
            &&& forall|t: int|
                0 <= t < idx.len() && (active ==> ns[idx[t]].is_active) ==> !older(
                    ns[b].version,
                    #[trigger] ns[idx[t]].version,
                )
        },
        newest(ns, idx, active) is None ==> forall|t: int| 0 <= t < idx.len() ==> active && !(#[trigger] ns[idx[t]]).is_active,
    decreases idx.len(),
{
    if idx.len() > 0 {
        let init = idx.drop_last();
        lemma_newest_is_newest(ns, init, active);
        let i = idx.last();
        assert forall|t: int| 0 <= t < init.len() implies #[trigger] idx[t] == init[t] by {}
        assert(idx[idx.len() - 1] == i);
        if !(active && !ns[i].is_active) {
            if let Some(b) = newest(ns, init, active) {
                crate::order::lemma_older_total(ns[i].version, ns[b].version);
                if older(ns[i].version, ns[b].version) {
                    assert forall|t: int|
                        0 <= t < idx.len() && (active ==> ns[idx[t]].is_active) implies !older(
                        ns[b].version,
                        #[trigger] ns[idx[t]].version,
                    ) by {
                        if t < init.len() {
                            assert(idx[t] == init[t]);
                        }
                    }
                } else {
                    assert forall|t: int|
                        0 <= t < idx.len() && (active ==> ns[idx[t]].is_active) implies !older(
                        ns[i].version,
                        #[trigger] ns[idx[t]].version,
                    ) by {
                        if t < init.len() {
                            assert(idx[t] == init[t]);
                            assert(!older(ns[b].version, ns[init[t]].version));
                            crate::order::lemma_older_total(ns[b].version, ns[init[t]].version);
                            if older(ns[i].version, ns[init[t]].version) {
                                if older(ns[init[t]].version, ns[b].version) {
                                    crate::order::lemma_older_transitive(ns[i].version, ns[init[t]].version, ns[b].version);
                                } else {
                                    // the two rank the same
                                    assert(crate::order::same_rank(ns[b].version, ns[init[t]].version));
                                    lemma_older_same_rank(ns[i].version, ns[init[t]].version, ns[b].version);
                                }
                            }
                        } else {
                            crate::order::lemma_older_irreflexive(ns[i].version);
                        }
                    }
                }
            } else {
                assert forall|t: int|
                    0 <= t < idx.len() && (active ==> ns[idx[t]].is_active) implies !older(
                    ns[i].version,
                    #[trigger] ns[idx[t]].version,
                ) by {
                    if t < init.len() {
                        assert(idx[t] == init[t]);
                        assert(active && !ns[init[t]].is_active);
                    } else {
                        crate::order::lemma_older_irreflexive(ns[i].version);
                    }
                }
            }
        } else {
            assert(newest(ns, idx, active) == newest(ns, init, active));
            if let Some(b) = newest(ns, init, active) {
                assert forall|t: int|
                    0 <= t < idx.len() && (active ==> ns[idx[t]].is_active) implies !older(
                    ns[b].version,
                    #[trigger] ns[idx[t]].version,
                ) by {
                    if t < init.len() {
                        assert(idx[t] == init[t]);
                    }
                }
            } else {
                assert forall|t: int| 0 <= t < idx.len() implies active && !(#[trigger] ns[idx[t]]).is_active by {
                    if t < init.len() {
                        assert(idx[t] == init[t]);
                    }
                }
            }
        }
    }
}

/// Coming before a version is coming before any version that ranks with it.
proof fn lemma_older_same_rank(a: VersionModel, b: VersionModel, c: VersionModel)
    requires
        older(a, b),
        crate::order::same_rank(c, b),
    ensures
        older(a, c),
{
}

/// Every prerequisite older than the version is a node the older prerequisites list.
pub proof fn lemma_older_prereqs_complete(ns: Seq<NodeModel>, ps: Seq<VersionModel>, v: VersionModel)
    ensures
        older_prereqs(ns, ps, v) matches Ok(idx) ==> forall|t: int|
            0 <= t < ps.len() && older(#[trigger] ps[t], v) ==> (lookup(ns, ps[t]) matches Some(c) && idx.contains(c)),
    decreases ps.len(),
{
    if ps.len() > 0 {
        let init = ps.drop_last();
        lemma_older_prereqs_complete(ns, init, v);
        if let Ok(idx) = older_prereqs(ns, ps, v) {
            let idx0 = older_prereqs(ns, init, v)->Ok_0;
            assert forall|t: int| 0 <= t < ps.len() && older(#[trigger] ps[t], v) implies (lookup(ns, ps[t]) matches Some(c)
                && idx.contains(c)) by {
                if t < init.len() {
                    assert(ps[t] == init[t]);
                    let c = lookup(ns, ps[t])->Some_0;
                    let m = choose|m: int| 0 <= m < idx0.len() && idx0[m] == c;
                    assert(idx[m] == c);
                } else {
                    assert(ps[t] == ps.last());
                    let c = lookup(ns, ps.last())->Some_0;
                    assert(idx[idx.len() - 1] == c);
                }
            }
        }
    }
}

/// Where no override names a version, its predecessor is the newest of its older
/// prerequisites: no prerequisite older than the version, and eligible (active where the
/// version is active), is newer than the predecessor.
pub proof fn lemma_pred_is_newest(ov: Seq<(VersionModel, Option<VersionModel>)>, ns: Seq<NodeModel>, k: int)
    requires
        0 <= k < ns.len(),
        override_of(ov, ns[k].version) is None,
        pred_spec(ov, ns, k) matches Ok(Some(j)),
    ensures
        pred_spec(ov, ns, k) matches Ok(Some(j)) && forall|t: int|
            0 <= t < ns[k].prerequisites.len() && older(#[trigger] ns[k].prerequisites[t], ns[k].version) && (
            ns[k].is_active ==> ns[lookup(ns, ns[k].prerequisites[t])->Some_0].is_active) ==> !older(
                ns[j].version,
                ns[k].prerequisites[t],
            ),
{
    let node = ns[k];
    let idx = older_prereqs(ns, node.prerequisites, node.version)->Ok_0;
    lemma_older_prereqs_complete(ns, node.prerequisites, node.version);
    lemma_newest_is_newest(ns, idx, node.is_active);
    let j = newest(ns, idx, node.is_active)->Some_0;
    assert forall|t: int|
        0 <= t < node.prerequisites.len() && older(#[trigger] node.prerequisites[t], node.version) && (node.is_active
            ==> ns[lookup(ns, node.prerequisites[t])->Some_0].is_active) implies !older(ns[j].version, node.prerequisites[t]) by {
        let p = node.prerequisites[t];
        lemma_lookup(ns, p);
        let c = lookup(ns, p)->Some_0;
        let m = choose|m: int| 0 <= m < idx.len() && idx[m] == c;
        assert(!older(ns[j].version, ns[idx[m]].version));
    }
}

/// A version's one patch.
fn sole_patch(node: &Node) -> (r: Result<Patch, ChainError>)
    ensures
        match r {
            Ok(p) => sole_patch_spec(node@) == Ok::<Patch, ChainFault>(p),
            Err(e) => sole_patch_spec(node@) == Err::<Patch, ChainFault>(e@),
        },
{
    if node.patches.len() != 1 {
        return Err(ChainError::PatchCount(node.version.duplicate(), node.patches.len()));
    }
    Ok(node.patches[0].duplicate())
}

pub open spec fn pair_models(c: Seq<(GameVersion, Patch)>) -> Seq<(VersionModel, Patch)> {
    Seq::new(c.len(), |i: int| (c[i].0@, c[i].1))
}

/// The patches to apply, oldest first, to reach `version`, under the given overrides.
pub fn chain_with(ov: &Vec<(GameVersion, Option<GameVersion>)>, nodes: &[Node], version: &GameVersion) -> (r: Result<
    Vec<(GameVersion, Patch)>,
    ChainError,
>)
    ensures
        match r {
            Ok(c) => chain_spec(
                override_models(ov@),
                node_models(nodes@),
                lookup(node_models(nodes@), version@),
                nodes@.len() as nat,
            ) == Ok::<Seq<(VersionModel, Patch)>, ChainFault>(pair_models(c@)),
            Err(e) => chain_spec(
                override_models(ov@),
                node_models(nodes@),
                lookup(node_models(nodes@), version@),
                nodes@.len() as nat,
            ) == Err::<Seq<(VersionModel, Patch)>, ChainFault>(e@),
        },
{
    let ghost ovm = override_models(ov@);
    let ghost ns = node_models(nodes@);
    let ghost total = chain_spec(ovm, ns, lookup(ns, version@), nodes@.len() as nat);
    let mut out: Vec<(GameVersion, Patch)> = Vec::new();
    let mut cur = find_node(nodes, version);
    let mut fuel: usize = nodes.len();
    proof {
        lemma_lookup(ns, version@);
        assert(pair_models(out@) =~= Seq::<(VersionModel, Patch)>::empty());
        match chain_spec(ovm, ns, opt_int(cur), fuel as nat) {
            Ok(rest) => assert(rest + pair_models(out@) =~= rest),
            Err(_) => {},
        }
    }
    while cur.is_some()
        invariant
            ovm == override_models(ov@),
            ns == node_models(nodes@),
            cur matches Some(k) ==> k < nodes@.len(),
            total == chain_spec(ovm, ns, lookup(ns, version@), nodes@.len() as nat),
            total == match chain_spec(ovm, ns, opt_int(cur), fuel as nat) {
                Ok(rest) => Ok::<Seq<(VersionModel, Patch)>, ChainFault>(rest + pair_models(out@)),
                Err(e) => Err(e),
            },
        decreases fuel,
    {
        let k = cur.unwrap();
        if fuel == 0 {
            return Err(ChainError::Cycle(nodes[k].version.duplicate()));
        }
        proof {
            assert(ns[k as int] == nodes@[k as int]@);
        }
        let patch = match sole_patch(&nodes[k]) {
            Ok(p) => p,
            Err(e) => {
                return Err(e);
            },
        };
        let next = match predecessor(ov, nodes, k) {
            Ok(n) => n,
            Err(e) => {
                return Err(e);
            },
        };
        let ghost before = pair_models(out@);
        out.insert(0, (nodes[k].version.duplicate(), patch));
        proof {
            assert(pair_models(out@) =~= seq![(ns[k as int].version, patch)] + before);
            match chain_spec(ovm, ns, opt_int(next), (fuel - 1) as nat) {
                Ok(rest) => {
                    assert(rest.push((ns[k as int].version, patch)) + before =~= rest + pair_models(out@));
                },
                Err(_) => {},
            }
        }
        cur = next;
        fuel = fuel - 1;
    }
    proof {
        assert(Seq::<(VersionModel, Patch)>::empty() + pair_models(out@) =~= pair_models(out@));
    }
    Ok(out)
}


/// The override entries parsed, in order, or the first entry that is not a version.
pub open spec fn parse_entries(es: Seq<(&'static str, Option<&'static str>)>) -> Result<
    Seq<(VersionModel, Option<VersionModel>)>,
    VersionError,
>
    decreases es.len(),
{
    if es.len() == 0 {
        Ok(Seq::empty())
    } else {
        match parse_entries(es.drop_last()) {
            Err(e) => Err(e),
            Ok(s) => {
                let from = es.last().0;
                match parse_version(from@) {
                    None => Err(version_error(from@)),
                    Some(f) => match es.last().1 {
                        None => Ok(s.push((f, None))),
                        Some(to) => match parse_version(to@) {
                            None => Err(version_error(to@)),
                            Some(t) => Ok(s.push((f, Some(t)))),
                        },
                    },
                }
            },
        }
    }
}

/// A repository's overrides: none when the table has no entry for it.
pub open spec fn overrides_spec(slug: Seq<char>) -> Result<Option<Seq<(VersionModel, Option<VersionModel>)>>, VersionError> {
    match override_entries(slug) {
        None => Ok(None),
        Some(es) => match parse_entries(es) {
            Ok(s) => Ok(Some(s)),
            Err(e) => Err(e),
        },
    }
}

/// The overrides a walk of a repository uses: its table's, or none.
pub open spec fn table_for(slug: Seq<char>) -> Result<Seq<(VersionModel, Option<VersionModel>)>, VersionError> {
    match overrides_spec(slug) {
        Ok(Some(s)) => Ok(s),
        Ok(None) => Ok(Seq::empty()),
        Err(e) => Err(e),
    }
}

/// A repository's override table, parsed.
pub fn overrides_for(slug: &str) -> (r: Result<Option<Vec<(GameVersion, Option<GameVersion>)>>, VersionError>)
    ensures
        match r {
            Ok(None) => overrides_spec(slug@) == Ok::<Option<Seq<(VersionModel, Option<VersionModel>)>>, VersionError>(None),
            Ok(Some(v)) => overrides_spec(slug@) == Ok::<Option<Seq<(VersionModel, Option<VersionModel>)>>, VersionError>(
                Some(override_models(v@)),
            ),
            Err(e) => overrides_spec(slug@) == Err::<Option<Seq<(VersionModel, Option<VersionModel>)>>, VersionError>(e),
        },
{
    let entries = match override_text(slug) {
        None => {
            return Ok(None);
        },
        Some(es) => es,
    };
    let ghost es = entries@;
    let mut out: Vec<(GameVersion, Option<GameVersion>)> = Vec::new();
    let mut i: usize = 0;
    assert(es.take(0) =~= Seq::<(&'static str, Option<&'static str>)>::empty());
    assert(override_models(out@) =~= Seq::<(VersionModel, Option<VersionModel>)>::empty());
    while i < entries.len()
        invariant
            es == entries@,
            override_entries(slug@) == Some(es),
            i <= es.len(),
            parse_entries(es.take(i as int)) == Ok::<Seq<(VersionModel, Option<VersionModel>)>, VersionError>(
                override_models(out@),
            ),
        decreases es.len() - i,
    {
        let (from, to) = entries[i];
        let ghost t = es.take(i + 1);
        proof {
            assert(t.drop_last() =~= es.take(i as int));
            assert(t.last() == (from, to));
        }
        let f = match GameVersion::new(from) {
            Ok(f) => f,
            Err(e) => {
                proof {
                    lemma_parse_entries_prefix_error(es, i as int + 1);
                }
                return Err(e);
            },
        };
        let target = match to {
            None => None,
            Some(to) => match GameVersion::new(to) {
                Ok(t) => Some(t),
                Err(e) => {
                    proof {
                        lemma_parse_entries_prefix_error(es, i as int + 1);
                    }
                    return Err(e);
                },
            },
        };
        let ghost before = override_models(out@);
        out.push((f, target));
        proof {
            assert(override_models(out@) =~= before.push(override_models(out@).last()));
        }
        i = i + 1;
    }
    proof {
        assert(es.take(es.len() as int) =~= es);
    }
    Ok(Some(out))
}

proof fn lemma_parse_entries_prefix_error(es: Seq<(&'static str, Option<&'static str>)>, i: int)
    requires
        0 <= i <= es.len(),
        parse_entries(es.take(i)) is Err,
    ensures
        parse_entries(es) == parse_entries(es.take(i)),
    decreases es.len() - i,
{
    if i < es.len() {
        let t = es.take(i + 1);
        assert(t.drop_last() =~= es.take(i));
        lemma_parse_entries_prefix_error(es, i + 1);
    } else {
        assert(es.take(i) =~= es);
    }
}

/// The ordered list of patches to apply to reach `version` in a repository.
pub fn build_chain(slug: &str, nodes: &[Node], version: &GameVersion) -> (r: Result<Vec<(GameVersion, Patch)>, ChainError>)
    ensures
        match table_for(slug@) {
            Err(e) => r matches Err(x) && x@ == ChainFault::BadOverride(e),
            Ok(ovm) => match r {
                Ok(c) => chain_spec(ovm, node_models(nodes@), lookup(node_models(nodes@), version@), nodes@.len() as nat)
                    == Ok::<Seq<(VersionModel, Patch)>, ChainFault>(pair_models(c@)),
                Err(x) => chain_spec(ovm, node_models(nodes@), lookup(node_models(nodes@), version@), nodes@.len() as nat)
                    == Err::<Seq<(VersionModel, Patch)>, ChainFault>(x@),
            },
        },
{
    let ov = match overrides_for(slug) {
        Ok(Some(v)) => v,
        Ok(None) => {
            let v: Vec<(GameVersion, Option<GameVersion>)> = Vec::new();
            assert(override_models(v@) =~= Seq::<(VersionModel, Option<VersionModel>)>::empty());
            v
        },
        Err(e) => {
            return Err(ChainError::BadOverride(e));
        },
    };
    chain_with(&ov, nodes, version)
}


/// Node `i` is the one a version lookup finds: the last holding its version.
pub open spec fn is_last(ns: Seq<NodeModel>, i: int) -> bool {
    lookup(ns, ns[i].version) == Some(i)
}

/// The steps of the distinct versions among the first `k` nodes, in node order.
pub open spec fn forest_models(ov: Seq<(VersionModel, Option<VersionModel>)>, ns: Seq<NodeModel>, k: int) -> Seq<
    StepModel,
>
    decreases k,
{
    if k <= 0 {
        Seq::empty()
    } else {
        let rest = forest_models(ov, ns, k - 1);
        if is_last(ns, k - 1) && step_spec(ov, ns, k - 1) is Ok {
            rest.push(step_spec(ov, ns, k - 1)->Ok_0)
        } else {
            rest
        }
    }
}

/// Every distinct version has a step.
pub open spec fn forest_ok(ov: Seq<(VersionModel, Option<VersionModel>)>, ns: Seq<NodeModel>) -> bool {
    forall|i: int| 0 <= i < ns.len() && is_last(ns, i) ==> #[trigger] step_spec(ov, ns, i) is Ok
}

/// Ordered by version, older first.
pub open spec fn steps_sorted(s: Seq<StepModel>) -> bool {
    forall|a: int, b: int| 0 <= a < b < s.len() ==> !older(#[trigger] s[b].version, #[trigger] s[a].version)
}

pub open spec fn step_models(s: Seq<Step>) -> Seq<StepModel> {
    Seq::new(s.len(), |i: int| s[i]@)
}

fn step_of(ov: &Vec<(GameVersion, Option<GameVersion>)>, nodes: &[Node], k: usize) -> (r: Result<Step, ChainError>)
    requires
        k < nodes@.len(),
    ensures
        match r {
            Ok(s) => step_spec(override_models(ov@), node_models(nodes@), k as int) == Ok::<StepModel, ChainFault>(s@),
            Err(e) => step_spec(override_models(ov@), node_models(nodes@), k as int) == Err::<StepModel, ChainFault>(e@),
        },
{
    let ghost ns = node_models(nodes@);
    proof {
        assert(ns[k as int] == nodes@[k as int]@);
    }
    let patch = match sole_patch(&nodes[k]) {
        Ok(p) => p,
        Err(e) => {
            return Err(e);
        },
    };
    let parent = match predecessor(ov, nodes, k) {
        Ok(Some(j)) => {
            proof {
                assert(ns[j as int] == nodes@[j as int]@);
            }
            Some(nodes[j].version.duplicate())
        },
        Ok(None) => None,
        Err(e) => {
            return Err(e);
        },
    };
    Ok(Step { version: nodes[k].version.duplicate(), patch, parent })
}

/// Every version in the repository, each paired with the one it follows, ordered by
/// version, under the given overrides.
pub fn forest_with(ov: &Vec<(GameVersion, Option<GameVersion>)>, nodes: &[Node]) -> (r: Result<Vec<Step>, ChainError>)
    ensures
        r is Ok <==> forest_ok(override_models(ov@), node_models(nodes@)),
        r matches Err(e) ==> exists|i: int|
            0 <= i < nodes@.len() && is_last(node_models(nodes@), i) && #[trigger] step_spec(
                override_models(ov@),
                node_models(nodes@),
                i,
            ) == Err::<StepModel, ChainFault>(e@),
        r matches Ok(steps) ==> steps_sorted(step_models(steps@)),
        r matches Ok(steps) ==> step_models(steps@).to_multiset() == forest_models(
            override_models(ov@),
            node_models(nodes@),
            nodes@.len() as int,
        ).to_multiset(),
{
    let ghost ovm = override_models(ov@);
    let ghost ns = node_models(nodes@);
    let mut steps: Vec<Step> = Vec::new();
    let mut i: usize = 0;
    proof {
        assert(step_models(steps@) =~= Seq::<StepModel>::empty());
    }
    while i < nodes.len()
        invariant
            ovm == override_models(ov@),
            ns == node_models(nodes@),
            i <= nodes@.len(),
            forall|j: int| 0 <= j < i && is_last(ns, j) ==> #[trigger] step_spec(ovm, ns, j) is Ok,
            steps_sorted(step_models(steps@)),
            step_models(steps@).to_multiset() == forest_models(ovm, ns, i as int).to_multiset(),
        decreases nodes@.len() - i,
    {
        proof {
            assert(ns[i as int] == nodes@[i as int]@);
        }
        let last = match find_node(nodes, &nodes[i].version) {
            Some(j) => j == i,
            None => false,
        };
        if last {
            let step = match step_of(ov, nodes, i) {
                Ok(s) => s,
                Err(e) => {
                    proof {
                        assert(is_last(ns, i as int));
                        assert(!forest_ok(ovm, ns)) by {
                            assert(step_spec(ovm, ns, i as int) is Err);
                        }
                    }
                    return Err(e);
                },
            };
            let ghost sm = step_models(steps@);
            let mut pos: usize = 0;
            while pos < steps.len() && steps[pos].version.0.compare(&step.version.0) <= 0
                invariant
                    sm == step_models(steps@),
                    pos <= steps@.len(),
                    forall|a: int| 0 <= a < pos ==> !older(step@.version, #[trigger] sm[a].version),
                decreases steps@.len() - pos,
            {
                proof {
                    assert(sm[pos as int] == steps@[pos as int]@);
                }
                pos = pos + 1;
            }
            proof {
                if pos < steps@.len() {
                    assert(sm[pos as int] == steps@[pos as int]@);
                    assert(older(step@.version, sm[pos as int].version));
                }
            }
            let ghost new_step = step@;
            steps.insert(pos, step);
            proof {
                let nm = step_models(steps@);
                assert(nm =~= sm.insert(pos as int, new_step));
                assert forall|a: int, b: int| 0 <= a < b < nm.len() implies !older(#[trigger] nm[b].version, #[trigger] nm[a].version) by {
                    if b < pos {
                    } else if b == pos {
                    } else if a < pos {
                        assert(nm[b] == sm[b - 1]);
                        if a < pos && older(nm[b].version, nm[a].version) {
                            if b - 1 > pos {
                                assert(!older(sm[b - 1].version, sm[pos as int].version));
                            }
                            crate::order::lemma_older_transitive(nm[b].version, nm[a].version, new_step.version);
                        }
                        if older(nm[b].version, new_step.version) {
                        }
                    } else if a == pos {
                        assert(nm[b] == sm[b - 1]);
                        if older(sm[b - 1].version, new_step.version) {
                            if b - 1 > pos {
                                assert(!older(sm[b - 1].version, sm[pos as int].version));
                            }
                            crate::order::lemma_older_transitive(sm[b - 1].version, new_step.version, sm[pos as int].version);
                        }
                    } else {
                        assert(nm[a] == sm[a - 1] && nm[b] == sm[b - 1]);
                    }
                }
                vstd::seq_lib::to_multiset_insert(sm, pos as int, new_step);
                vstd::seq_lib::to_multiset_build(forest_models(ovm, ns, i as int), new_step);
                assert(forest_models(ovm, ns, i + 1) == forest_models(ovm, ns, i as int).push(new_step));
            }
        } else {
            proof {
                lemma_lookup(ns, ns[i as int].version);
                assert(!is_last(ns, i as int));
                assert(forest_models(ovm, ns, i + 1) == forest_models(ovm, ns, i as int));
            }
        }
        i = i + 1;
    }
    Ok(steps)
}


/// Every version in a repository, each paired with the one it follows, ordered by version.
pub fn build_forest(slug: &str, nodes: &[Node]) -> (r: Result<Vec<Step>, ChainError>)
    ensures
        match table_for(slug@) {
            Err(e) => r matches Err(x) && x@ == ChainFault::BadOverride(e),
            Ok(ovm) => {
                &&& r is Ok <==> forest_ok(ovm, node_models(nodes@))
                &&& r matches Err(x) ==> exists|i: int|
                    0 <= i < nodes@.len() && is_last(node_models(nodes@), i) && #[trigger] step_spec(
                        ovm,
                        node_models(nodes@),
                        i,
                    ) == Err::<StepModel, ChainFault>(x@)
                &&& r matches Ok(steps) ==> steps_sorted(step_models(steps@))
                &&& r matches Ok(steps) ==> step_models(steps@).to_multiset() == forest_models(
                    ovm,
                    node_models(nodes@),
                    nodes@.len() as int,
                ).to_multiset()
            },
        },
{
    let ov = match overrides_for(slug) {
        Ok(Some(v)) => v,
        Ok(None) => {
            let v: Vec<(GameVersion, Option<GameVersion>)> = Vec::new();
            assert(override_models(v@) =~= Seq::<(VersionModel, Option<VersionModel>)>::empty());
            v
        },
        Err(e) => {
            return Err(ChainError::BadOverride(e));
        },
    };
    forest_with(&ov, nodes)
}

/// Where no override names the version, its predecessor is older than it.
pub proof fn lemma_pred_older(ov: Seq<(VersionModel, Option<VersionModel>)>, ns: Seq<NodeModel>, k: int)
    requires
        0 <= k < ns.len(),
        override_of(ov, ns[k].version) is None,
        pred_spec(ov, ns, k) matches Ok(Some(j)),
    ensures
        pred_spec(ov, ns, k) matches Ok(Some(j)) && older(ns[j].version, ns[k].version),
{
    let node = ns[k];
    let idx = older_prereqs(ns, node.prerequisites, node.version)->Ok_0;
    lemma_older_prereqs_in_range(ns, node.prerequisites, node.version);
    lemma_newest_member(ns, idx, node.is_active);
    let j = newest(ns, idx, node.is_active)->Some_0;
    let m = choose|m: int| 0 <= m < idx.len() && idx[m] == j;
    assert(older(ns[idx[m]].version, node.version));
}

/// A predecessor is a node a version lookup finds.
pub proof fn lemma_pred_is_last(ov: Seq<(VersionModel, Option<VersionModel>)>, ns: Seq<NodeModel>, k: int)
    requires
        0 <= k < ns.len(),
        pred_spec(ov, ns, k) matches Ok(Some(j)),
    ensures
        pred_spec(ov, ns, k) matches Ok(Some(j)) && 0 <= j < ns.len() && is_last(ns, j),
{
    let node = ns[k];
    match override_of(ov, node.version) {
        Some(Some(rep)) => {
            lemma_lookup(ns, rep);
        },
        _ => {
            let idx = older_prereqs(ns, node.prerequisites, node.version)->Ok_0;
            lemma_older_prereqs_in_range(ns, node.prerequisites, node.version);
            lemma_newest_member(ns, idx, node.is_active);
            let j = newest(ns, idx, node.is_active)->Some_0;
            let m = choose|m: int| 0 <= m < idx.len() && idx[m] == j;
            assert(lookup(ns, ns[idx[m]].version) == Some(idx[m]));
        },
    }
}

/// The walk to a version ends with that version's own patch.
pub proof fn lemma_chain_ends(ov: Seq<(VersionModel, Option<VersionModel>)>, ns: Seq<NodeModel>, k: int, fuel: nat)
    requires
        0 <= k < ns.len(),
        chain_spec(ov, ns, Some(k), fuel) is Ok,
    ensures
        chain_spec(ov, ns, Some(k), fuel) matches Ok(c) && c.len() > 0 && c.last() == (
            ns[k].version,
            ns[k].patches[0],
        ),
{
}

/// With no overrides, each version of a chain is older than every version after it: the
/// walk only ever steps back in time, so it never revisits a version.
pub proof fn lemma_chain_ascends(ns: Seq<NodeModel>, cur: Option<int>, fuel: nat)
    requires
        cur matches Some(k) ==> 0 <= k < ns.len(),
        chain_spec(Seq::empty(), ns, cur, fuel) is Ok,
    ensures
        chain_spec(Seq::empty(), ns, cur, fuel) matches Ok(c) && forall|a: int, b: int|
            0 <= a < b < c.len() ==> older(#[trigger] c[a].0, #[trigger] c[b].0),
        chain_spec(Seq::empty(), ns, cur, fuel) matches Ok(c) && (cur matches Some(k) ==> forall|a: int|
            0 <= a < c.len() ==> (#[trigger] c[a].0 == ns[k].version || older(c[a].0, ns[k].version))),
    decreases fuel,
{
    let ov = Seq::<(VersionModel, Option<VersionModel>)>::empty();
    if let Some(k) = cur {
        if fuel > 0 {
            let next = pred_spec(ov, ns, k)->Ok_0;
            if let Some(j) = next {
                lemma_pred_is_last(ov, ns, k);
                lemma_pred_older(ov, ns, k);
            }
            lemma_chain_ascends(ns, next, (fuel - 1) as nat);
            let rest = chain_spec(ov, ns, next, (fuel - 1) as nat)->Ok_0;
            let c = chain_spec(ov, ns, cur, fuel)->Ok_0;
            assert(c == rest.push((ns[k].version, sole_patch_spec(ns[k])->Ok_0)));
            assert forall|a: int| 0 <= a < c.len() implies (#[trigger] c[a].0 == ns[k].version || older(c[a].0, ns[k].version)) by {
                if a < rest.len() {
                    let j = next->Some_0;
                    assert(c[a] == rest[a]);
                    if rest[a].0 != ns[j].version {
                        crate::order::lemma_older_transitive(rest[a].0, ns[j].version, ns[k].version);
                    }
                }
            }
            assert forall|a: int, b: int| 0 <= a < b < c.len() implies older(#[trigger] c[a].0, #[trigger] c[b].0) by {
                if b < rest.len() {
                    assert(c[a] == rest[a] && c[b] == rest[b]);
                } else {
                    let j = next->Some_0;
                    assert(c[a] == rest[a]);
                    if rest[a].0 != ns[j].version {
                        crate::order::lemma_older_transitive(rest[a].0, ns[j].version, ns[k].version);
                    }
                }
            }
        }
    }
}

proof fn lemma_forest_members(ov: Seq<(VersionModel, Option<VersionModel>)>, ns: Seq<NodeModel>, k: int)
    requires
        0 <= k <= ns.len(),
        forest_ok(ov, ns),
    ensures
        forall|j: int| 0 <= j < k && is_last(ns, j) ==> forest_models(ov, ns, k).contains(#[trigger] step_spec(ov, ns, j)->Ok_0),
        forall|m: int| 0 <= m < forest_models(ov, ns, k).len() ==> exists|j: int|
            0 <= j < k && is_last(ns, j) && #[trigger] forest_models(ov, ns, k)[m] == step_spec(ov, ns, j)->Ok_0,
    decreases k,
{
    if k > 0 {
        lemma_forest_members(ov, ns, k - 1);
        let rest = forest_models(ov, ns, k - 1);
        let f = forest_models(ov, ns, k);
        assert forall|j: int| 0 <= j < k && is_last(ns, j) implies f.contains(#[trigger] step_spec(ov, ns, j)->Ok_0) by {
            if j < k - 1 {
                let m = choose|m: int| 0 <= m < rest.len() && rest[m] == step_spec(ov, ns, j)->Ok_0;
                assert(f[m] == rest[m]);
            } else {
                assert(step_spec(ov, ns, j) is Ok);
                assert(f[f.len() - 1] == step_spec(ov, ns, j)->Ok_0);
            }
        }
        assert forall|m: int| 0 <= m < f.len() implies exists|j: int|
            0 <= j < k && is_last(ns, j) && #[trigger] f[m] == step_spec(ov, ns, j)->Ok_0 by {
            if m < rest.len() {
                assert(f[m] == rest[m]);
                let j = choose|j: int| 0 <= j < k - 1 && is_last(ns, j) && #[trigger] rest[m] == step_spec(ov, ns, j)->Ok_0;
                assert(0 <= j < k && is_last(ns, j) && f[m] == step_spec(ov, ns, j)->Ok_0);
            } else {
                assert(f[m] == step_spec(ov, ns, k - 1)->Ok_0);
            }
        }
    }
}

/// In a forest every step's parent has a step of its own; where no override names the
/// step's version, that parent is older than it.
pub proof fn lemma_forest_parents(ov: Seq<(VersionModel, Option<VersionModel>)>, ns: Seq<NodeModel>, m: int)
    requires
        forest_ok(ov, ns),
        0 <= m < forest_models(ov, ns, ns.len() as int).len(),
        forest_models(ov, ns, ns.len() as int)[m].parent is Some,
    ensures
        ({
            let f = forest_models(ov, ns, ns.len() as int);
            let p = f[m].parent->Some_0;
            &&& exists|t: int| 0 <= t < f.len() && #[trigger] f[t].version == p
            &&& override_of(ov, f[m].version) is None ==> older(p, f[m].version)
        }),
{
    let n = ns.len() as int;
    let f = forest_models(ov, ns, n);
    lemma_forest_members(ov, ns, n);
    let k = choose|k: int| 0 <= k < n && is_last(ns, k) && #[trigger] f[m] == step_spec(ov, ns, k)->Ok_0;
    assert(step_spec(ov, ns, k) is Ok);
    let j = pred_spec(ov, ns, k)->Ok_0->Some_0;
    lemma_pred_is_last(ov, ns, k);
    assert(step_spec(ov, ns, j) is Ok);
    let t = choose|t: int| 0 <= t < f.len() && f[t] == step_spec(ov, ns, j)->Ok_0;
    assert(f[t].version == ns[j].version);
    if override_of(ov, f[m].version) is None {
        lemma_pred_older(ov, ns, k);
    }
}

/// Why a patch's url names no version.
#[derive(Debug, Clone, Copy, PartialEq, Eq, Structural)]
pub enum PatchNameError {
    /// The file name is empty before its extension.
    Empty,
    /// The file name is not a version.
    Invalid(VersionError),
}

pub open spec fn is_sep(c: char) -> bool {
    c == '/' || c == '\\'
}

/// Where the url's last path segment starts.
pub open spec fn segment_start(s: Seq<char>) -> int
    decreases s.len(),
{
    if s.len() == 0 {
        0
    } else if is_sep(s.last()) {
        s.len() as int
    } else {
        segment_start(s.drop_last())
    }
}

/// Where the last `.` of `s` is, if anywhere.
pub open spec fn last_dot(s: Seq<char>) -> Option<int>
    decreases s.len(),
{
    if s.len() == 0 {
        None
    } else if s.last() == '.' {
        Some(s.len() - 1)
    } else {
        last_dot(s.drop_last())
    }
}

/// The url's file name without its extension.
pub open spec fn url_stem(url: Seq<char>) -> Seq<char> {
    let name = url.skip(segment_start(url));
    match last_dot(name) {
        Some(i) => name.take(i),
        None => name,
    }
}

proof fn lemma_segment_start(s: Seq<char>)
    ensures
        0 <= segment_start(s) <= s.len(),
    decreases s.len(),
{
    if s.len() > 0 {
        lemma_segment_start(s.drop_last());
    }
}

proof fn lemma_last_dot(s: Seq<char>)
    ensures
        last_dot(s) matches Some(i) ==> 0 <= i < s.len(),
    decreases s.len(),
{
    if s.len() > 0 {
        lemma_last_dot(s.drop_last());
    }
}

impl Patch {
    /// The patch version its url's file name spells.
    pub fn version(&self) -> (r: Result<PatchVersion, PatchNameError>)
        ensures
            url_stem(self.url@).len() == 0 <==> r == Err::<PatchVersion, PatchNameError>(PatchNameError::Empty),
            url_stem(self.url@).len() > 0 ==> match r {
                Ok(v) => parse_version(url_stem(self.url@)) == Some(v@),
                Err(e) => parse_version(url_stem(self.url@)) is None && e == PatchNameError::Invalid(
                    version_error(url_stem(self.url@)),
                ),
            },
    {
        let cs = crate::text::chars_of(self.url.as_str());
        let mut k: usize = cs.len();
        assert(cs@.take(k as int) =~= cs@);
        while k > 0 && !(cs[k - 1] == '/' || cs[k - 1] == '\\')
            invariant
                k <= cs@.len(),
                segment_start(cs@) == segment_start(cs@.take(k as int)),
            decreases k,
        {
            assert(cs@.take(k as int).drop_last() =~= cs@.take(k - 1));
            k = k - 1;
        }
        proof {
            if k == 0 {
                assert(cs@.take(0) =~= Seq::<char>::empty());
            }
        }
        let name = vstd::slice::slice_subrange(cs.as_slice(), k, cs.len());
        proof {
            assert(name@ =~= cs@.skip(k as int));
        }
        let mut d: usize = name.len();
        assert(name@.take(d as int) =~= name@);
        while d > 0 && name[d - 1] != '.'
            invariant
                d <= name@.len(),
                last_dot(name@) == last_dot(name@.take(d as int)),
            decreases d,
        {
            assert(name@.take(d as int).drop_last() =~= name@.take(d - 1));
            d = d - 1;
        }
        let stem_end = if d > 0 {
            d - 1
        } else {
            proof {
                assert(name@.take(0) =~= Seq::<char>::empty());
            }
            name.len()
        };
        let stem = vstd::slice::slice_subrange(name, 0, stem_end);
        proof {
            lemma_last_dot(name@);
            if d > 0 {
                assert(stem@ =~= name@.take(d - 1));
            } else {
                assert(stem@ =~= name@);
            }
        }
        if stem.len() == 0 {
            return Err(PatchNameError::Empty);
        }
        let text = crate::text::string_of(stem);
        match PatchVersion::new(text.as_str()) {
            Ok(v) => Ok(v),
            Err(e) => Err(PatchNameError::Invalid(e)),
        }
    }
}


impl ChainError {
    /// What went wrong, in words.
    pub fn message(&self) -> (s: String)
        ensures
            match self@ {
                ChainFault::NoPrerequisite(v) => s@ == seq!['v', 'e', 'r', 's', 'i', 'o', 'n', ' '] + version_text(v, false)
                    + no_prerequisite_text(),
                _ => true,
            },
    {
        let mut out = String::new();
        match self {
            ChainError::NoPrerequisite(v) => {
                crate::text::push_str(&mut out, "version ");
                let t = v.to_string();
                crate::text::push_str(&mut out, t.as_str());
                crate::text::push_str(
                    &mut out,
                    " states no prerequisite at all; Thaliak has dropped the edge, so name its predecessor in the override table",
                );
                proof {
                    reveal_strlit("version ");
                    reveal_strlit(
                        " states no prerequisite at all; Thaliak has dropped the edge, so name its predecessor in the override table",
                    );
                    assert(out@ =~= seq!['v', 'e', 'r', 's', 'i', 'o', 'n', ' '] + version_text(v@, false)
                        + no_prerequisite_text());
                }
            },
            ChainError::MissingVersion(v) => {
                crate::text::push_str(&mut out, "the graph has no version ");
                let t = v.to_string();
                crate::text::push_str(&mut out, t.as_str());
            },
            ChainError::PatchCount(v, n) => {
                crate::text::push_str(&mut out, "version ");
                let t = v.to_string();
                crate::text::push_str(&mut out, t.as_str());
                crate::text::push_str(&mut out, " has ");
                crate::text::push_decimal(&mut out, *n as u64);
                crate::text::push_str(&mut out, " patches, expected 1");
            },
            ChainError::Cycle(v) => {
                crate::text::push_str(&mut out, "following predecessors from version ");
                let t = v.to_string();
                crate::text::push_str(&mut out, t.as_str());
                crate::text::push_str(&mut out, " never reaches a lineage start");
            },
            ChainError::BadOverride(_) => {
                crate::text::push_str(&mut out, "an override table entry is not a version");
            },
        }
        out
    }
}

/// The words that follow a version that states no prerequisite.
pub open spec fn no_prerequisite_text() -> Seq<char> {
    " states no prerequisite at all; Thaliak has dropped the edge, so name its predecessor in the override table"@
}

} // verus!
