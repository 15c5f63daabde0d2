//! Resolution, step by step. The caller looks dependencies up and reads
//! manifests; what to look up next, and what follows from the answer, is
//! decided here.
use std::collections::VecDeque;
use vstd::prelude::*;
use vstd::string::*;

use crate::demands::{
    demands_on, find_version_conflicts, is_reported, law_bad_versions_are_reported, law_demands_on, law_found_conflict,
    lemma_demands_on, lemma_two_demands, only_sources, version_conflicts,
};
use crate::graph::{lemma_last_position, lemma_position, position};
use crate::manifest::{dep_names, names_ascend, DepSpec, DepSpecView, Manifest};
use crate::order::{is_dependency_order, stands_before};
use crate::paths::{FsPath, FsPathView};
use crate::resolver::{
    can_be_built, demand_text, dep_spec_to_package_id, dep_spec_to_req_string, found_id, is_sorted_form, law_stuck_names, manifest_view, node_base,
    node_base_view, node_deps, node_names, resolve_one, resolved_node, source_fault, source_request, stuck_names,
    topological_sort, wanted_source, Conflict, ConflictDemand, ConflictDemandView, ConflictKind, ConflictView,
    PackageId, PackageIdView, ResolveError, ResolveErrorView, ResolveResult, ResolvedNode, ResolvedNodeView,
    SourceRequest, SourceRequestView,
};
use crate::text::{lemma_text_lt_order, lemma_views_push, same_text, views, Text};
use crate::version::{at_odds, version_parses, version_req_admits, version_req_parses};

verus! {

/// A dependency that is still to be resolved.
#[derive(Debug)]
pub struct Pending {
    pub name: String,
    pub dep: DepSpec,
    /// Through which packages it is asked for.
    pub chain: String,
    /// The directory from which its path is seen.
    pub base: FsPath,
}

#[verifier::ext_equal]
pub struct PendingView {
    pub name: Text,
    pub dep: DepSpecView,
    pub chain: Text,
    pub base: FsPathView,
}

impl View for Pending {
    type V = PendingView;

    open spec fn view(&self) -> PendingView {
        PendingView { name: self.name@, dep: self.dep@, chain: self.chain@, base: self.base@ }
    }
}

/// A demand on a package.
#[derive(Debug)]
pub struct Demand {
    pub name: String,
    pub chain: String,
    pub req: String,
}

#[verifier::ext_equal]
pub struct DemandView {
    pub name: Text,
    pub chain: Text,
    pub req: Text,
}

impl View for Demand {
    type V = DemandView;

    open spec fn view(&self) -> DemandView {
        DemandView { name: self.name@, chain: self.chain@, req: self.req@ }
    }
}

/// A package found where a dependency said to look.
#[verifier::ext_equal]
pub struct Sighting {
    pub id: PackageIdView,
    pub chain: Text,
}

/// Resolution between two dependencies.
pub struct Resolution {
    root: FsPath,
    queue: VecDeque<Pending>,
    seen: Vec<PackageId>,
    nodes: Vec<ResolvedNode>,
    demands: Vec<Demand>,
    conflicts: Vec<Conflict>,
    deps: Ghost<Seq<(Text, DepSpecView)>>,
    log: Ghost<Seq<Sighting>>,
}

#[verifier::ext_equal]
pub struct ResolutionView {
    pub root: FsPathView,
    /// What is still to be resolved, in order.
    pub queue: Seq<PendingView>,
    /// The id under which each package was first found.
    pub seen: Seq<PackageIdView>,
    /// The packages, in the order in which they were first found.
    pub nodes: Seq<ResolvedNodeView>,
    /// What has been demanded so far, in order.
    pub demands: Seq<DemandView>,
    /// The packages asked for from different places.
    pub conflicts: Seq<ConflictView>,
    /// The project's own dependencies.
    pub deps: Seq<(Text, DepSpecView)>,
    /// Every package found so far, in order.
    pub log: Seq<Sighting>,
}

impl View for Resolution {
    type V = ResolutionView;

    closed spec fn view(&self) -> ResolutionView {
        ResolutionView {
            root: self.root@,
            queue: views(self.queue@),
            seen: views(self.seen@),
            nodes: views(self.nodes@),
            demands: views(self.demands@),
            conflicts: views(self.conflicts@),
            deps: self.deps@,
            log: self.log@,
        }
    }
}

/// The names in ids.
pub open spec fn id_names(ids: Seq<PackageIdView>) -> Seq<Text> {
    Seq::new(ids.len(), |i: int| ids[i].name)
}

/// The id under which each name was first found.
pub open spec fn first_ids(log: Seq<Sighting>) -> Seq<PackageIdView>
    decreases log.len(),
{
    if log.len() == 0 {
        Seq::empty()
    } else {
        let front = first_ids(log.drop_last());
        if id_names(front).contains(log.last().id.name) {
            front
        } else {
            front.push(log.last().id)
        }
    }
}

/// The conflict between where a package was first found and where it is found
/// now.
pub open spec fn source_conflict(first: PackageIdView, now: Sighting) -> ConflictView {
    ConflictView {
        package_name: now.id.name,
        kind: ConflictKind::SourceMismatch,
        demands: seq![
            ConflictDemandView { requester_chain: "（已记录来源）"@, version_req: first.source_fingerprint },
            ConflictDemandView { requester_chain: now.chain, version_req: now.id.source_fingerprint },
        ],
    }
}

/// The conflict, if any, that a sighting makes with earlier ones.
pub open spec fn clash(log: Seq<Sighting>, now: Sighting) -> Seq<ConflictView> {
    let firsts = first_ids(log);
    let p = position(id_names(firsts), now.id.name);
    if p >= 0 && firsts[p] != now.id {
        seq![source_conflict(firsts[p], now)]
    } else {
        Seq::empty()
    }
}

/// One conflict for each sighting of a package that was first found elsewhere.
pub open spec fn source_conflicts(log: Seq<Sighting>) -> Seq<ConflictView>
    decreases log.len(),
{
    if log.len() == 0 {
        Seq::empty()
    } else {
        source_conflicts(log.drop_last()) + clash(log.drop_last(), log.last())
    }
}

impl ResolutionView {
    /// Whether the package is resolved.
    pub open spec fn knows(self, name: Text) -> bool {
        id_names(self.seen).contains(name)
    }

    /// The names of the project's own dependencies.
    pub open spec fn roots(self) -> Seq<Text> {
        dep_names(self.deps)
    }

    /// Whether the project or a package found so far depends on that name.
    pub open spec fn asks_for(self, name: Text) -> bool {
        is_asked_for(self.roots(), self.nodes, name)
    }

    /// Every dependency that the project and the packages found so far ask
    /// for, in the order in which they come to be resolved.
    pub open spec fn asked(self) -> Seq<PendingView> {
        asked(self.root, self.deps, self.log, self.nodes)
    }

    /// Whether a dependency of that name is still to be resolved.
    pub open spec fn awaits(self, name: Text) -> bool {
        exists|i: int| 0 <= i < self.queue.len() && (#[trigger] self.queue[i]).name == name
    }

    /// What holds throughout resolution, while the dependency `current`, if
    /// any, is at hand.
    pub open spec fn inv(self, current: Option<PendingView>) -> bool {
        &&& self.keeps_names(
            match current {
                Some(item) => Some(item.name),
                None => None,
            },
        )
        &&& self.keeps_specs(current)
    }

    /// That every dependency of the project and of each package is demanded
    /// and looked up once, in order, or is still to be.
    pub open spec fn keeps_specs(self, current: Option<PendingView>) -> bool {
        let at_hand = if current is Some {
            1int
        } else {
            0int
        };
        // What has been taken up has been demanded; the rest is in the queue.
        &&& self.asked().len() == self.demands.len() + self.queue.len()
        &&& forall|i: int| 0 <= i < self.demands.len() ==> #[trigger] self.demands[i] == demand_of(self.asked()[i])
        &&& self.queue == self.asked().skip(self.demands.len() as int)
        // What has been demanded has been looked up, but for what is at hand.
        &&& self.demands.len() == self.log.len() + at_hand
        &&& forall|i: int| 0 <= i < self.log.len() ==> is_answer(self.asked()[i], #[trigger] self.log[i])
        &&& current matches Some(item) ==> self.asked()[self.log.len() as int] == item
    }

    /// What holds of names throughout resolution, while a dependency of the
    /// name `current`, if any, is at hand.
    pub open spec fn keeps_names(self, current: Option<Text>) -> bool {
        // Each package has one id and one node.
        &&& self.seen.len() == self.nodes.len()
        &&& id_names(self.seen) == node_names(self.nodes)
        &&& id_names(self.seen).no_duplicates()
        &&& forall|i: int| 0 <= i < self.nodes.len() ==> names_ascend((#[trigger] self.nodes[i]).direct_deps)
        // The first source found counts, and each later one that differs is a conflict.
        &&& self.seen == first_ids(self.log)
        &&& self.conflicts == source_conflicts(self.log)
        // Nothing that is asked for is forgotten.
        &&& forall|name: Text| #[trigger]
            self.asks_for(name) ==> self.knows(name) || self.awaits(name) || current == Some(name)
        // Nothing is resolved that nobody asks for.
        &&& forall|i: int| 0 <= i < self.queue.len() ==> self.asks_for((#[trigger] self.queue[i]).name)
        &&& forall|i: int| 0 <= i < self.seen.len() ==> self.asks_for((#[trigger] self.seen[i]).name)
        &&& current matches Some(name) ==> self.asks_for(name)
        // Every demand is on a package that is resolved.
        &&& forall|i: int|
            0 <= i < self.demands.len() ==> self.knows((#[trigger] self.demands[i]).name) || current == Some(
                self.demands[i].name,
            )
    }
}

/// Whether that name is among `roots`, or one of the packages depends on it.
pub open spec fn is_asked_for(roots: Seq<Text>, nodes: Seq<ResolvedNodeView>, name: Text) -> bool {
    ||| roots.contains(name)
    ||| exists|i: int| 0 <= i < nodes.len() && #[trigger] node_asks(nodes[i], name)
}

/// Whether a package depends on that name.
pub open spec fn node_asks(node: ResolvedNodeView, name: Text) -> bool {
    dep_names(node.direct_deps).contains(name)
}

/// The project's own dependencies, to be resolved from its root.
pub open spec fn root_queue(root: FsPathView, deps: Seq<(Text, DepSpecView)>) -> Seq<PendingView> {
    Seq::new(
        deps.len(),
        |i: int| PendingView { name: deps[i].0, dep: deps[i].1, chain: "root -> "@ + deps[i].0, base: root },
    )
}

/// What a dependency demands.
pub open spec fn demand_of(item: PendingView) -> DemandView {
    DemandView { name: item.name, chain: item.chain, req: demand_text(item.dep) }
}

/// Whether a sighting answers a dependency: a package of its name, found where
/// it says to look.
pub open spec fn is_answer(item: PendingView, now: Sighting) -> bool {
    &&& now.id.name == item.name
    &&& now.chain == item.chain
    &&& wanted_source(item.dep) matches Some(request) && exists|found: Text|
        now.id == #[trigger] found_id(item.name, request, found)
}

/// Every dependency that the project and the packages ask for, in order: first
/// those of the project, then those of each package from where it was first
/// found.
pub open spec fn asked(
    root: FsPathView,
    deps: Seq<(Text, DepSpecView)>,
    log: Seq<Sighting>,
    nodes: Seq<ResolvedNodeView>,
) -> Seq<PendingView>
    decreases log.len(),
{
    if log.len() == 0 {
        root_queue(root, deps)
    } else if id_names(first_ids(log.drop_last())).contains(log.last().id.name) {
        asked(root, deps, log.drop_last(), nodes)
    } else {
        asked(root, deps, log.drop_last(), nodes.drop_last()) + child_queue(root, log.last().chain, nodes.last())
    }
}

/// Resolution as it begins.
pub open spec fn begun(root: FsPathView, deps: Seq<(Text, DepSpecView)>) -> ResolutionView {
    ResolutionView {
        root,
        queue: root_queue(root, deps),
        seen: Seq::empty(),
        nodes: Seq::empty(),
        demands: Seq::empty(),
        conflicts: Seq::empty(),
        deps,
        log: Seq::empty(),
    }
}

/// Resolution once the next dependency is taken up: what it demands is noted.
pub open spec fn taken(s: ResolutionView) -> ResolutionView {
    let item = s.queue[0];
    ResolutionView {
        queue: s.queue.drop_first(),
        demands: s.demands.push(demand_of(item)),
        ..s
    }
}

/// Resolution once a package of a known name is found again.
pub open spec fn found_again(s: ResolutionView, now: Sighting) -> ResolutionView {
    ResolutionView { conflicts: s.conflicts + clash(s.log, now), log: s.log.push(now), ..s }
}

/// The dependencies of a package, to be resolved from where it was found.
pub open spec fn child_queue(root: FsPathView, chain: Text, node: ResolvedNodeView) -> Seq<PendingView> {
    Seq::new(
        node.direct_deps.len(),
        |i: int|
            PendingView {
                name: node.direct_deps[i].0,
                dep: node.direct_deps[i].1,
                chain: chain + " -> "@ + node.direct_deps[i].0,
                base: node_base_view(root, node.source),
            },
    )
}

/// Resolution once a package is found for the first time.
pub open spec fn found_first(s: ResolutionView, now: Sighting, node: ResolvedNodeView) -> ResolutionView {
    ResolutionView {
        queue: s.queue + child_queue(s.root, now.chain, node),
        seen: s.seen.push(now.id),
        nodes: s.nodes.push(node),
        log: s.log.push(now),
        ..s
    }
}

proof fn lemma_begun(root: FsPathView, deps: Seq<(Text, DepSpecView)>)
    ensures
        begun(root, deps).inv(None),
{
    let s = begun(root, deps);
    assert(s.queue =~= s.asked().skip(0));
    assert(id_names(s.seen) =~= node_names(s.nodes));
    assert forall|name: Text| #[trigger] s.asks_for(name) implies s.awaits(name) by {
        let i = choose|i: int| 0 <= i < s.roots().len() && s.roots()[i] == name;
        assert(s.queue[i].name == name);
    }
    assert forall|i: int| 0 <= i < s.queue.len() implies s.asks_for((#[trigger] s.queue[i]).name) by {
        assert(s.roots()[i] == s.queue[i].name);
    }
}

proof fn lemma_taken(s: ResolutionView)
    requires
        s.inv(None),
        s.queue.len() > 0,
    ensures
        taken(s).inv(Some(s.queue[0])),
{
    let t = taken(s);
    let current = s.queue[0].name;
    let all = s.asked();
    let n = s.demands.len() as int;
    assert(all[n] == s.queue[0]);
    assert(t.queue =~= all.skip(n + 1));
    assert forall|name: Text| #[trigger] t.asks_for(name) implies t.knows(name) || t.awaits(name) || current == name by {
        assert(s.asks_for(name));
        if s.awaits(name) {
            let i = choose|i: int| 0 <= i < s.queue.len() && (#[trigger] s.queue[i]).name == name;
            if i > 0 {
                assert(t.queue[i - 1].name == name);
            }
        }
    }
    assert forall|i: int| 0 <= i < t.queue.len() implies t.asks_for((#[trigger] t.queue[i]).name) by {
        assert(s.asks_for(s.queue[i + 1].name));
    }
    assert forall|i: int| 0 <= i < t.demands.len() implies t.knows((#[trigger] t.demands[i]).name) || current
        == t.demands[i].name by {
        if i < s.demands.len() {
            assert(s.knows(s.demands[i].name));
        }
    }
    assert(s.asks_for(s.queue[0].name));
    assert(t.asks_for(current));
}

proof fn lemma_found_again(s: ResolutionView, item: PendingView, now: Sighting)
    requires
        s.inv(Some(item)),
        is_answer(item, now),
        s.knows(now.id.name),
    ensures
        found_again(s, now).inv(None),
{
    let t = found_again(s, now);
    assert(t.log.drop_last() =~= s.log);
    assert(t.asked() == s.asked());
    assert forall|name: Text| #[trigger] t.asks_for(name) implies t.knows(name) || t.awaits(name) by {
        assert(s.asks_for(name));
        if s.awaits(name) {
            let i = choose|i: int| 0 <= i < s.queue.len() && (#[trigger] s.queue[i]).name == name;
            assert(t.queue[i].name == name);
        }
    }
    assert forall|i: int| 0 <= i < t.queue.len() implies t.asks_for((#[trigger] t.queue[i]).name) by {
        assert(s.asks_for(s.queue[i].name));
    }
    assert forall|i: int| 0 <= i < t.seen.len() implies t.asks_for((#[trigger] t.seen[i]).name) by {
        assert(s.asks_for(s.seen[i].name));
    }
}

proof fn lemma_found_first(s: ResolutionView, item: PendingView, now: Sighting, node: ResolvedNodeView)
    requires
        s.inv(Some(item)),
        is_answer(item, now),
        !s.knows(now.id.name),
        node.name == now.id.name,
        names_ascend(node.direct_deps),
    ensures
        found_first(s, now, node).inv(None),
{
    let t = found_first(s, now, node);
    let current = now.id.name;
    assert(t.log.drop_last() =~= s.log);
    assert(t.nodes.drop_last() =~= s.nodes);
    let more = child_queue(s.root, now.chain, node);
    assert(t.asked() == s.asked() + more);
    assert(t.queue =~= t.asked().skip(t.demands.len() as int));
    assert(id_names(t.seen) =~= id_names(s.seen).push(current));
    assert(node_names(t.nodes) =~= node_names(s.nodes).push(current));
    assert(clash(s.log, now) =~= Seq::empty()) by {
        lemma_position(id_names(s.seen), current);
    }
    assert(t.conflicts =~= s.conflicts + clash(s.log, now));
    assert forall|name: Text| s.knows(name) implies #[trigger] t.knows(name) by {
        let i = choose|i: int| 0 <= i < id_names(s.seen).len() && id_names(s.seen)[i] == name;
        assert(id_names(t.seen)[i] == name);
    }
    assert(t.knows(current)) by {
        assert(id_names(t.seen)[s.seen.len() as int] == current);
    }
    assert forall|name: Text| #[trigger] s.asks_for(name) implies t.asks_for(name) by {
        if !s.roots().contains(name) {
            let i = choose|i: int| 0 <= i < s.nodes.len() && #[trigger] node_asks(s.nodes[i], name);
            assert(t.nodes[i] == s.nodes[i]);
            assert(node_asks(t.nodes[i], name));
        }
    }
    assert forall|name: Text| #[trigger] node_asks(node, name) implies t.asks_for(name) && t.awaits(name) by {
        assert(t.nodes[s.nodes.len() as int] == node);
        assert(node_asks(t.nodes[s.nodes.len() as int], name));
        let k = choose|k: int| 0 <= k < dep_names(node.direct_deps).len() && dep_names(node.direct_deps)[k] == name;
        assert(t.queue[s.queue.len() + k].name == name);
    }
    assert forall|name: Text| #[trigger] t.asks_for(name) implies t.knows(name) || t.awaits(name) by {
        if s.asks_for(name) {
            if s.awaits(name) {
                let i = choose|i: int| 0 <= i < s.queue.len() && (#[trigger] s.queue[i]).name == name;
                assert(t.queue[i].name == name);
            }
        } else {
            let i = choose|i: int| 0 <= i < t.nodes.len() && #[trigger] node_asks(t.nodes[i], name);
            if i < s.nodes.len() {
                assert(node_asks(s.nodes[i], name));
            } else {
                assert(node_asks(node, name));
            }
        }
    }
    assert forall|i: int| 0 <= i < t.queue.len() implies t.asks_for((#[trigger] t.queue[i]).name) by {
        if i < s.queue.len() {
            assert(s.asks_for(s.queue[i].name));
        } else {
            let k = i - s.queue.len();
            assert(dep_names(node.direct_deps)[k] == t.queue[i].name);
            assert(node_asks(node, t.queue[i].name));
        }
    }
    assert forall|i: int| 0 <= i < t.seen.len() implies t.asks_for((#[trigger] t.seen[i]).name) by {
        if i < s.seen.len() {
            assert(s.asks_for(s.seen[i].name));
        } else {
            assert(s.asks_for(current));
        }
    }
    assert forall|i: int| 0 <= i < t.demands.len() implies t.knows((#[trigger] t.demands[i]).name) by {
        assert(s.knows(s.demands[i].name) || current == s.demands[i].name);
    }
}

/// A resolver for the project in a directory.
#[derive(Debug)]
pub struct Resolver {
    root: FsPath,
}

impl View for Resolver {
    type V = FsPathView;

    closed spec fn view(&self) -> FsPathView {
        self.root@
    }
}

impl Resolver {
    pub fn new(root: FsPath) -> (resolver: Resolver)
        ensures
            resolver@ == root@,
    {
        Resolver { root }
    }

    /// Begins to resolve what the manifest depends on.
    pub fn resolve(&self, manifest: &Manifest) -> (resolution: Resolution)
        ensures
            resolution.wf(),
            resolution@ == begun(self@, manifest@.dependencies),
    {
        let ghost deps = manifest@.dependencies;
        let mut queue: VecDeque<Pending> = VecDeque::new();
        let mut i: usize = 0;
        while i < manifest.dependencies.len()
            invariant
                deps == manifest.dependencies@,
                i <= deps.len(),
                queue@.len() == i,
                forall|k: int| 0 <= k < i ==> (#[trigger] queue@[k])@ == root_queue(self.root@, deps)[k],
            decreases deps.len() - i,
        {
            let name = manifest.dependencies.name(i);
            let chain = String::from_str("root -> ").concat(name.as_str());
            queue.push_back(
                Pending {
                    name: name.clone(),
                    dep: manifest.dependencies.dep(i).clone(),
                    chain,
                    base: self.root.clone(),
                },
            );
            i = i + 1;
        }
        let resolution = Resolution {
            root: self.root.clone(),
            queue,
            seen: Vec::new(),
            nodes: Vec::new(),
            demands: Vec::new(),
            conflicts: Vec::new(),
            deps: Ghost(deps),
            log: Ghost(Seq::empty()),
        };
        proof {
            lemma_begun(self.root@, deps);
            assert(resolution@ =~= begun(self.root@, deps));
        }
        resolution
    }
}

/// What comes next in resolution.
pub enum Next {
    /// A dependency is to be looked up.
    Locate(Locating),
    /// Everything is resolved.
    Done(Resolved),
}

/// Resolution while a dependency is looked up.
pub struct Locating {
    state: Resolution,
    item: Pending,
    request: SourceRequest,
}

/// What a looked-up dependency turns out to be.
pub enum Located {
    /// A package of a known name.
    Known(Resolution),
    /// A package of a new name, whose manifest is to be read.
    New(Loading),
}

/// Resolution while the manifest of a package is read.
pub struct Loading {
    state: Resolution,
    item: Pending,
    request: SourceRequest,
    id: PackageId,
}

/// Resolution with nothing left to look up.
pub struct Resolved {
    state: Resolution,
}

impl Resolution {
    pub open spec fn wf(&self) -> bool {
        self@.inv(None)
    }

    /// Takes up the next dependency, and says where it is to be looked up.
    pub fn next(self) -> (next: Result<Next, ResolveError>)
        requires
            self.wf(),
        ensures
            match next {
                Ok(Next::Locate(l)) => {
                    &&& l.wf()
                    &&& self@.queue.len() > 0
                    &&& l.item_view() == self@.queue[0]
                    &&& Some(l.request_view()) == wanted_source(self@.queue[0].dep)
                    &&& l.state_view() == taken(self@)
                },
                Ok(Next::Done(d)) => {
                    &&& d.wf()
                    &&& self@.queue.len() == 0
                    &&& d@ == self@
                },
                Err(e) => {
                    &&& self@.queue.len() > 0
                    &&& wanted_source(self@.queue[0].dep) is None
                    &&& e@ == source_fault(self@.queue[0].name, self@.queue[0].dep, self@.queue[0].chain)
                },
            },
    {
        let ghost before = self@;
        let mut state = self;
        match state.queue.pop_front() {
            None => Ok(Next::Done(Resolved { state })),
            Some(item) => {
                proof {
                    assert(before.queue[0] == item@);
                    lemma_taken(before);
                }
                let demand = Demand {
                    name: item.name.clone(),
                    chain: item.chain.clone(),
                    req: dep_spec_to_req_string(&item.dep),
                };
                proof {
                    lemma_views_push(state.demands@, demand);
                }
                state.demands.push(demand);
                assert(state@ =~= taken(before)) by {
                    assert(state@.queue =~= before.queue.drop_first());
                }
                match source_request(item.name.as_str(), &item.dep, item.chain.as_str()) {
                    Ok(request) => Ok(Next::Locate(Locating { state, item, request })),
                    Err(e) => Err(e),
                }
            },
        }
    }
}

/// Finds the id of that name.
fn find_id(ids: &Vec<PackageId>, name: &str) -> (found: Option<usize>)
    ensures
        match found {
            Some(i) => i == position(id_names(views(ids@)), name@),
            None => position(id_names(views(ids@)), name@) == -1,
        },
{
    let ghost names = id_names(views(ids@));
    let mut i: usize = 0;
    proof {
        lemma_position(names, name@);
    }
    while i < ids.len()
        invariant
            names == id_names(views(ids@)),
            i <= ids@.len(),
            forall|k: int| 0 <= k < i ==> names[k] != name@,
        decreases ids.len() - i,
    {
        assert(names[i as int] == ids@[i as int].name@);
        if same_text(ids[i].name.as_str(), name) {
            proof {
                lemma_position(names, name@);
            }
            return Some(i);
        }
        i = i + 1;
    }
    None
}

impl Locating {
    pub closed spec fn state_view(&self) -> ResolutionView {
        self.state@
    }

    pub closed spec fn item_view(&self) -> PendingView {
        self.item@
    }

    pub closed spec fn request_view(&self) -> SourceRequestView {
        self.request@
    }

    pub open spec fn wf(&self) -> bool {
        &&& self.state_view().inv(Some(self.item_view()))
        &&& wanted_source(self.item_view().dep) == Some(self.request_view())
    }

    /// The dependency that is looked up.
    pub fn item(&self) -> (item: &Pending)
        ensures
            item@ == self.item_view(),
    {
        &self.item
    }

    /// Where it is to be looked up.
    pub fn request(&self) -> (request: &SourceRequest)
        ensures
            request@ == self.request_view(),
    {
        &self.request
    }

    /// Goes on with what was found: the absolute path of the directory, or
    /// the commit. A package of a known name is not resolved again, but if it
    /// comes from elsewhere, that is a conflict.
    pub fn found(self, found: &str) -> (located: Located)
        requires
            self.wf(),
        ensures
            ({
                let s = self.state_view();
                let item = self.item_view();
                let id = found_id(item.name, self.request_view(), found@);
                match located {
                    Located::Known(r) => {
                        &&& r.wf()
                        &&& s.knows(item.name)
                        &&& r@ == found_again(s, Sighting { id, chain: item.chain })
                    },
                    Located::New(l) => {
                        &&& l.wf()
                        &&& !s.knows(item.name)
                        &&& l.state_view() == s
                        &&& l.item_view() == item
                        &&& l.request_view() == self.request_view()
                        &&& l.id_view() == id
                    },
                }
            }),
    {
        let ghost s = self.state@;
        let Locating { state, item, request } = self;
        let mut state = state;
        let id = dep_spec_to_package_id(item.name.as_str(), &request, found);
        let ghost now = Sighting { id: id@, chain: item.chain@ };
        proof {
            lemma_position(id_names(s.seen), item.name@);
        }
        match find_id(&state.seen, item.name.as_str()) {
            Some(p) => {
                assert(s.seen[p as int] == state.seen@[p as int]@);
                let same = same_text(
                    state.seen[p].source_fingerprint.as_str(),
                    id.source_fingerprint.as_str(),
                );
                assert(s.seen[p as int].name == item.name@) by {
                    assert(id_names(s.seen)[p as int] == item.name@);
                }
                assert(same <==> s.seen[p as int] == id@);
                if !same {
                    let conflict = mismatch(&state.seen[p], &id, item.chain.as_str());
                    proof {
                        lemma_views_push(state.conflicts@, conflict);
                    }
                    state.conflicts.push(conflict);
                }
                state.log = Ghost(s.log.push(now));
                proof {
                    assert(now.id == found_id(item.name@, request@, found@));
                    lemma_found_again(s, item@, now);
                    assert(state@ =~= found_again(s, now)) by {
                        assert(state@.conflicts =~= s.conflicts + clash(s.log, now));
                    }
                }
                Located::Known(state)
            },
            None => {
                assert(now.id == found_id(item.name@, request@, found@));
                Located::New(Loading { state, item, request, id })
            },
        }
    }
}

/// The conflict between two sources of a package.
fn mismatch(first: &PackageId, id: &PackageId, chain: &str) -> (conflict: Conflict)
    ensures
        conflict@ == source_conflict(first@, Sighting { id: id@, chain: chain@ }),
{
    let mut demands: Vec<ConflictDemand> = Vec::new();
    demands.push(
        ConflictDemand {
            requester_chain: String::from_str("（已记录来源）"),
            version_req: first.source_fingerprint.clone(),
        },
    );
    demands.push(
        ConflictDemand { requester_chain: String::from_str(chain), version_req: id.source_fingerprint.clone() },
    );
    let conflict = Conflict { package_name: id.name.clone(), kind: ConflictKind::SourceMismatch, demands };
    assert(conflict@.demands =~= source_conflict(first@, Sighting { id: id@, chain: chain@ }).demands);
    conflict
}

impl Loading {
    pub closed spec fn state_view(&self) -> ResolutionView {
        self.state@
    }

    pub closed spec fn item_view(&self) -> PendingView {
        self.item@
    }

    pub closed spec fn request_view(&self) -> SourceRequestView {
        self.request@
    }

    pub closed spec fn id_view(&self) -> PackageIdView {
        self.id@
    }

    pub open spec fn wf(&self) -> bool {
        &&& self.state_view().inv(Some(self.item_view()))
        &&& !self.state_view().knows(self.item_view().name)
        &&& is_answer(self.item_view(), Sighting { id: self.id_view(), chain: self.item_view().chain })
    }

    /// The dependency whose package is read.
    pub fn item(&self) -> (item: &Pending)
        ensures
            item@ == self.item_view(),
    {
        &self.item
    }

    /// Where it is found.
    pub fn request(&self) -> (request: &SourceRequest)
        ensures
            request@ == self.request_view(),
    {
        &self.request
    }

    /// Goes on with the package: where it was found, and its manifest, if it
    /// has one. What it depends on is to be resolved too.
    pub fn loaded(self, found: &str, manifest: Option<&Manifest>) -> (resolution: Resolution)
        requires
            self.wf(),
            manifest matches Some(m) ==> m.wf(),
        ensures
            resolution.wf(),
            resolution@ == found_first(
                self.state_view(),
                Sighting { id: self.id_view(), chain: self.item_view().chain },
                resolved_node(
                    self.item_view().name,
                    self.item_view().dep,
                    self.request_view(),
                    found@,
                    manifest_view(manifest),
                ),
            ),
    {
        let ghost s = self.state@;
        let Loading { state, item, request, id } = self;
        let mut state = state;
        let ghost now = Sighting { id: id@, chain: item.chain@ };
        let node = resolve_one(item.name.as_str(), &item.dep, &request, found, manifest);
        let ghost queued = state.queue@;
        let base = node_base(&state.root, &node.source);
        let ghost children = child_queue(s.root, item.chain@, node@);
        let mut i: usize = 0;
        while i < node.direct_deps.len()
            invariant
                i <= node.direct_deps@.len(),
                s.root == state.root@,
                base@ == node_base_view(s.root, node.source@),
                children == child_queue(s.root, item.chain@, node@),
                state.queue@.len() == queued.len() + i,
                forall|k: int| 0 <= k < queued.len() ==> #[trigger] state.queue@[k] == queued[k],
                forall|k: int|
                    queued.len() <= k < state.queue@.len() ==> (#[trigger] state.queue@[k])@ == children[k
                        - queued.len()],
                state.seen@ == self.state.seen@,
                state.nodes@ == self.state.nodes@,
                state.demands@ == self.state.demands@,
                state.conflicts@ == self.state.conflicts@,
                state.deps == self.state.deps,
                state.log == self.state.log,
            decreases node.direct_deps@.len() - i,
        {
            let name = node.direct_deps.name(i);
            let chain = item.chain.clone().concat(" -> ").concat(name.as_str());
            let ghost before = state.queue@;
            state.queue.push_back(
                Pending { name: name.clone(), dep: node.direct_deps.dep(i).clone(), chain, base: base.clone() },
            );
            assert(forall|k: int| 0 <= k < before.len() ==> #[trigger] state.queue@[k] == before[k]);
            i = i + 1;
        }
        proof {
            lemma_views_push(state.seen@, id);
            lemma_views_push(state.nodes@, node);
        }
        let ghost shown = node@;
        state.seen.push(id);
        state.nodes.push(node);
        state.log = Ghost(s.log.push(now));
        proof {
            lemma_found_first(s, item@, now, shown);
            assert(state@ =~= found_first(s, now, shown)) by {
                assert(state@.queue =~= s.queue + children);
            }
        }
        state
    }
}

impl View for Resolved {
    type V = ResolutionView;

    closed spec fn view(&self) -> ResolutionView {
        self.state@
    }
}

impl Resolved {
    pub open spec fn wf(&self) -> bool {
        self@.inv(None) && self@.queue.len() == 0
    }
}

/// Whether the packages are just those that are asked for: by the project, or
/// by one of them; each once.
pub open spec fn is_complete(roots: Seq<Text>, packages: Seq<ResolvedNodeView>) -> bool {
    &&& node_names(packages).no_duplicates()
    &&& forall|name: Text| #[trigger] is_asked_for(roots, packages, name) <==> node_names(packages).contains(name)
}

/// With nothing left to look up, the packages found are just those that are
/// asked for.
proof fn lemma_nothing_left(s: ResolutionView)
    requires
        s.inv(None),
        s.queue.len() == 0,
    ensures
        is_complete(s.roots(), s.nodes),
{
    assert forall|name: Text| #[trigger] is_asked_for(s.roots(), s.nodes, name) <==> node_names(s.nodes).contains(name) by {
        if is_asked_for(s.roots(), s.nodes, name) {
            assert(s.asks_for(name));
            assert(!s.awaits(name));
        }
        if node_names(s.nodes).contains(name) {
            let i = choose|i: int| 0 <= i < id_names(s.seen).len() && id_names(s.seen)[i] == name;
            assert(s.asks_for(s.seen[i].name));
        }
    }
}

/// Rearranging packages does not change whether they are complete.
proof fn lemma_complete_sorted(roots: Seq<Text>, nodes: Seq<ResolvedNodeView>, sorted: Seq<ResolvedNodeView>)
    requires
        is_complete(roots, nodes),
        is_sorted_form(nodes, sorted),
    ensures
        is_complete(roots, sorted),
{
    let a = node_names(nodes);
    let b = node_names(sorted);
    assert forall|name: Text| #[trigger] is_asked_for(roots, sorted, name) <==> b.contains(name) by {
        if is_asked_for(roots, sorted, name) && !roots.contains(name) {
            let i = choose|i: int| 0 <= i < sorted.len() && #[trigger] node_asks(sorted[i], name);
            assert(sorted.contains(sorted[i]));
            assert(nodes.contains(sorted[i]));
            let j = choose|j: int| 0 <= j < nodes.len() && nodes[j] == sorted[i];
            assert(node_asks(nodes[j], name));
        }
        if is_asked_for(roots, nodes, name) && !roots.contains(name) {
            let i = choose|i: int| 0 <= i < nodes.len() && #[trigger] node_asks(nodes[i], name);
            assert(nodes.contains(nodes[i]));
            assert(sorted.contains(nodes[i]));
            let j = choose|j: int| 0 <= j < sorted.len() && sorted[j] == nodes[i];
            assert(node_asks(sorted[j], name));
        }
        assert(is_asked_for(roots, sorted, name) <==> is_asked_for(roots, nodes, name));
        if a.contains(name) {
            let i = choose|i: int| 0 <= i < a.len() && a[i] == name;
            assert(nodes.contains(nodes[i]));
            assert(sorted.contains(nodes[i]));
            let j = choose|j: int| 0 <= j < sorted.len() && sorted[j] == nodes[i];
            assert(b[j] == name);
        }
        if b.contains(name) {
            let i = choose|i: int| 0 <= i < b.len() && b[i] == name;
            assert(sorted.contains(sorted[i]));
            let j = choose|j: int| 0 <= j < nodes.len() && nodes[j] == sorted[i];
            assert(a[j] == name);
        }
    }
    assert forall|i: int, j: int| 0 <= i < b.len() && 0 <= j < b.len() && i != j implies b[i] != b[j] by {
        let x = if i < j { i } else { j };
        let y = if i < j { j } else { i };
        let deps = node_deps(sorted);
        assert(stands_before(b, deps[x], b[x], deps[y], b[y]));
        lemma_text_lt_order(b[x], b[y]);
        if b[x] == b[y] {
            // Two packages of one name would be one package of `nodes`.
            assert(sorted.contains(sorted[x]) && sorted.contains(sorted[y]));
            let p = choose|p: int| 0 <= p < nodes.len() && nodes[p] == sorted[x];
            let q = choose|q: int| 0 <= q < nodes.len() && nodes[q] == sorted[y];
            assert(a[p] == a[q]);
            assert(p == q);
            assert(deps[x] == deps[y]);
        }
    }
}

impl Resolved {
    /// Completes resolution: demands on versions are checked, and the packages
    /// are sorted so that each stands after those it depends on.
    pub fn finish(self) -> (result: Result<ResolveResult, ResolveError>)
        requires
            self.wf(),
        ensures
            match result {
                Ok(r) => {
                    &&& is_sorted_form(self@.nodes, views(r.packages@))
                    &&& is_complete(self@.roots(), views(r.packages@))
                    &&& views(r.conflicts@) == self@.conflicts + version_conflicts(
                        self@.nodes,
                        self@.demands,
                        self@.conflicts,
                    )
                    &&& forall|k: int|
                        self@.conflicts.len() <= k < r.conflicts@.len() ==> !only_sources(
                            demands_on(self@.demands, (#[trigger] views(r.conflicts@)[k]).package_name),
                        )
                    &&& stuck_names(self@.nodes).len() == 0
                },
                Err(e) => {
                    &&& e@ == ResolveErrorView::Cycle(stuck_names(self@.nodes))
                    &&& stuck_names(self@.nodes).len() > 0
                },
            },
    {
        let ghost s = self.state@;
        let Resolved { state } = self;
        let mut conflicts = state.conflicts;
        let mut more = find_version_conflicts(&state.nodes, &state.demands, &conflicts);
        let ghost parts = (conflicts@, more@);
        conflicts.append(&mut more);
        assert(views(conflicts@) =~= views(parts.0) + views(parts.1));
        assert forall|k: int| s.conflicts.len() <= k < conflicts@.len() implies !only_sources(
            demands_on(s.demands, (#[trigger] views(conflicts@)[k]).package_name),
        ) by {
            assert(views(conflicts@)[k] == views(parts.1)[k - s.conflicts.len()]);
        }
        proof {
            lemma_nothing_left(s);
        }
        match topological_sort(state.nodes) {
            Ok(packages) => {
                proof {
                    lemma_complete_sorted(s.roots(), s.nodes, views(packages@));
                }
                Ok(ResolveResult { packages, conflicts })
            },
            Err(e) => Err(e),
        }
    }
}

/// Where a package is found in two places, a conflict over it is reported.
pub proof fn law_different_sources_are_reported(log: Seq<Sighting>, i: int, j: int)
    requires
        0 <= i < j < log.len(),
        log[i].id.name == log[j].id.name,
        log[i].id != log[j].id,
    ensures
        is_reported(source_conflicts(log), log[i].id.name),
    decreases log.len(),
{
    let name = log[i].id.name;
    let front = log.drop_last();
    let conflicts = source_conflicts(front);
    if j < front.len() {
        law_different_sources_are_reported(front, i, j);
        lemma_still_reported(conflicts, clash(front, log.last()), name);
    } else {
        let firsts = first_ids(front);
        lemma_first_ids(front);
        assert(id_names(firsts).contains(front[i].id.name));
        let p = position(id_names(firsts), name);
        lemma_position(id_names(firsts), name);
        assert(firsts[p].name == name) by {
            assert(id_names(firsts)[p] == name);
        }
        if firsts[p] != log[j].id {
            let added = clash(front, log.last());
            let all = source_conflicts(log);
            assert(all[conflicts.len() as int] == added[0]);
            assert(all[conflicts.len() as int].package_name == name);
        } else {
            // The first sighting agrees with the last, so it differs from this one.
            let f = choose|f: int| 0 <= f < front.len() && (#[trigger] front[f]).id == firsts[p] && is_first(front, f);
            if f < i {
                law_different_sources_are_reported(front, f, i);
            } else {
                assert(f != i);
                assert(front[i].id.name != front[f].id.name);
            }
            lemma_still_reported(conflicts, clash(front, log.last()), name);
        }
    }
}

/// Whether no earlier sighting is of that name.
spec fn is_first(log: Seq<Sighting>, f: int) -> bool {
    forall|g: int| 0 <= g < f ==> (#[trigger] log[g]).id.name != log[f].id.name
}

proof fn lemma_still_reported(conflicts: Seq<ConflictView>, more: Seq<ConflictView>, name: Text)
    requires
        is_reported(conflicts, name),
    ensures
        is_reported(conflicts + more, name),
{
    let i = choose|i: int| 0 <= i < conflicts.len() && (#[trigger] conflicts[i]).package_name == name;
    assert((conflicts + more)[i].package_name == name);
}

/// Each name has the id of its first sighting.
proof fn lemma_first_ids(log: Seq<Sighting>)
    ensures
        forall|i: int| 0 <= i < log.len() ==> id_names(first_ids(log)).contains((#[trigger] log[i]).id.name),
        forall|p: int|
            0 <= p < first_ids(log).len() ==> exists|f: int|
                0 <= f < log.len() && (#[trigger] log[f]).id == (#[trigger] first_ids(log)[p]) && is_first(log, f),
    decreases log.len(),
{
    if log.len() > 0 {
        let front = log.drop_last();
        let firsts = first_ids(front);
        let all = first_ids(log);
        lemma_first_ids(front);
        assert forall|i: int| 0 <= i < log.len() implies id_names(all).contains((#[trigger] log[i]).id.name) by {
            if i < front.len() {
                assert(id_names(firsts).contains(front[i].id.name));
                let q = choose|q: int| 0 <= q < id_names(firsts).len() && id_names(firsts)[q] == front[i].id.name;
                assert(id_names(all)[q] == front[i].id.name);
            } else if !id_names(firsts).contains(log.last().id.name) {
                assert(id_names(all)[firsts.len() as int] == log.last().id.name);
            }
        }
        assert forall|p: int| 0 <= p < all.len() implies exists|f: int|
            0 <= f < log.len() && (#[trigger] log[f]).id == (#[trigger] all[p]) && is_first(log, f) by {
            if p < firsts.len() {
                assert(all[p] == firsts[p]);
                let f = choose|f: int| 0 <= f < front.len() && (#[trigger] front[f]).id == firsts[p] && is_first(front, f);
                assert(log[f] == front[f]);
                assert(is_first(log, f)) by {
                    assert forall|g: int| 0 <= g < f implies (#[trigger] log[g]).id.name != log[f].id.name by {
                        assert(front[g].id.name != front[f].id.name);
                    }
                }
            } else {
                let f = log.len() - 1;
                assert(log[f].id == all[p]);
                assert(is_first(log, f)) by {
                    assert forall|g: int| 0 <= g < f implies (#[trigger] log[g]).id.name != log[f].id.name by {
                        assert(id_names(firsts).contains(front[g].id.name));
                    }
                }
            }
        }
    }
}

/// No conflict over sources is reported just where each package was always
/// found in one place.
pub proof fn law_one_source_each(log: Seq<Sighting>)
    ensures
        source_conflicts(log).len() == 0 <==> forall|i: int, j: int|
            0 <= i < j < log.len() && log[i].id.name == log[j].id.name ==> (#[trigger] log[i]).id == (#[trigger] log[j]).id,
{
    if source_conflicts(log).len() == 0 {
        assert forall|i: int, j: int| 0 <= i < j < log.len() && log[i].id.name == log[j].id.name implies (
        #[trigger] log[i]).id == (#[trigger] log[j]).id by {
            if log[i].id != log[j].id {
                law_different_sources_are_reported(log, i, j);
            }
        }
    } else {
        lemma_conflict_is_real(log);
    }
}

proof fn lemma_conflict_is_real(log: Seq<Sighting>)
    requires
        source_conflicts(log).len() > 0,
    ensures
        exists|i: int, j: int|
            0 <= i < j < log.len() && log[i].id.name == log[j].id.name && (#[trigger] log[i]).id != (#[trigger] log[j]).id,
    decreases log.len(),
{
    let front = log.drop_last();
    if source_conflicts(front).len() > 0 {
        lemma_conflict_is_real(front);
        let (i, j) = choose|i: int, j: int|
            0 <= i < j < front.len() && front[i].id.name == front[j].id.name && (#[trigger] front[i]).id != (
            #[trigger] front[j]).id;
        assert(log[i].id != log[j].id);
    } else {
        let firsts = first_ids(front);
        let p = position(id_names(firsts), log.last().id.name);
        lemma_position(id_names(firsts), log.last().id.name);
        lemma_first_ids(front);
        let f = choose|f: int| 0 <= f < front.len() && (#[trigger] front[f]).id == firsts[p] && is_first(front, f);
        assert(id_names(firsts)[p] == log.last().id.name);
        assert(log[f].id != log[log.len() - 1].id);
    }
}

/// Whether the project depends on that name through at most `k` packages.
pub open spec fn is_reached(roots: Seq<Text>, packages: Seq<ResolvedNodeView>, name: Text, k: nat) -> bool
    decreases k,
{
    ||| roots.contains(name)
    ||| k > 0 && exists|j: int|
        0 <= j < packages.len() && #[trigger] node_asks(packages[j], name) && is_reached(
            roots,
            packages,
            packages[j].name,
            (k - 1) as nat,
        )
}

/// Every package that resolution comes to is one that the project depends on,
/// directly or through others.
pub proof fn law_every_package_is_reached(roots: Seq<Text>, packages: Seq<ResolvedNodeView>, i: int)
    requires
        is_complete(roots, packages),
        is_dependency_order(node_names(packages), node_deps(packages)),
        0 <= i < packages.len(),
    ensures
        is_reached(roots, packages, packages[i].name, (packages.len() - i) as nat),
    decreases packages.len() - i,
{
    let names = node_names(packages);
    let name = packages[i].name;
    assert(names[i] == name);
    assert(is_asked_for(roots, packages, name));
    if !roots.contains(name) {
        let j = choose|j: int| 0 <= j < packages.len() && #[trigger] node_asks(packages[j], name);
        let deps = node_deps(packages)[j];
        let d = choose|d: int| 0 <= d < deps.len() && deps[d] == name;
        lemma_position(names, name);
        lemma_last_position(names, deps);
        assert(position(names, deps[d]) == i);
        assert(i < j);
        law_every_package_is_reached(roots, packages, j);
        lemma_reached_more(
            roots,
            packages,
            packages[j].name,
            (packages.len() - j) as nat,
            (packages.len() - i - 1) as nat,
        );
    }
}

proof fn lemma_reached_more(roots: Seq<Text>, packages: Seq<ResolvedNodeView>, name: Text, k: nat, m: nat)
    requires
        is_reached(roots, packages, name, k),
        k <= m,
    ensures
        is_reached(roots, packages, name, m),
    decreases k,
{
    if !roots.contains(name) {
        let j = choose|j: int|
            0 <= j < packages.len() && #[trigger] node_asks(packages[j], name) && is_reached(
                roots,
                packages,
                packages[j].name,
                (k - 1) as nat,
            );
        lemma_reached_more(roots, packages, packages[j].name, (k - 1) as nat, (m - 1) as nat);
        assert(node_asks(packages[j], name));
    }
}

/// How many dependencies packages have together.
pub open spec fn dep_count(nodes: Seq<ResolvedNodeView>) -> nat
    decreases nodes.len(),
{
    if nodes.len() == 0 {
        0
    } else {
        dep_count(nodes.drop_last()) + nodes.last().direct_deps.len()
    }
}

/// Whether what is asked for holds that dependency.
pub open spec fn holds_spec(items: Seq<PendingView>, name: Text, dep: DepSpecView) -> bool {
    exists|i: int| 0 <= i < items.len() && (#[trigger] items[i]).name == name && items[i].dep == dep
}

/// What is asked for are the dependencies of the project and of each package:
/// all of them, and as many as they are.
proof fn lemma_asked(
    root: FsPathView,
    deps: Seq<(Text, DepSpecView)>,
    log: Seq<Sighting>,
    nodes: Seq<ResolvedNodeView>,
)
    requires
        nodes.len() == first_ids(log).len(),
    ensures
        asked(root, deps, log, nodes).len() == deps.len() + dep_count(nodes),
        forall|k: int|
            0 <= k < deps.len() ==> holds_spec(asked(root, deps, log, nodes), (#[trigger] deps[k]).0, deps[k].1),
        forall|m: int, k: int|
            0 <= m < nodes.len() && 0 <= k < nodes[m].direct_deps.len() ==> holds_spec(
                asked(root, deps, log, nodes),
                (#[trigger] nodes[m].direct_deps[k]).0,
                nodes[m].direct_deps[k].1,
            ),
    decreases log.len(),
{
    let all = asked(root, deps, log, nodes);
    if log.len() == 0 {
        assert forall|k: int| 0 <= k < deps.len() implies holds_spec(all, (#[trigger] deps[k]).0, deps[k].1) by {
            assert(all[k].name == deps[k].0);
        }
    } else if id_names(first_ids(log.drop_last())).contains(log.last().id.name) {
        lemma_asked(root, deps, log.drop_last(), nodes);
    } else {
        let part = nodes.drop_last();
        let front = asked(root, deps, log.drop_last(), part);
        let more = child_queue(root, log.last().chain, nodes.last());
        lemma_asked(root, deps, log.drop_last(), part);
        assert forall|k: int| 0 <= k < deps.len() implies holds_spec(all, (#[trigger] deps[k]).0, deps[k].1) by {
            lemma_still_held(front, more, deps[k].0, deps[k].1);
        }
        assert forall|m: int, k: int| 0 <= m < nodes.len() && 0 <= k < nodes[m].direct_deps.len() implies holds_spec(
            all,
            (#[trigger] nodes[m].direct_deps[k]).0,
            nodes[m].direct_deps[k].1,
        ) by {
            if m < part.len() {
                assert(part[m].direct_deps[k] == nodes[m].direct_deps[k]);
                lemma_still_held(front, more, nodes[m].direct_deps[k].0, nodes[m].direct_deps[k].1);
            } else {
                assert(all[front.len() + k] == more[k]);
            }
        }
    }
}

proof fn lemma_still_held(items: Seq<PendingView>, more: Seq<PendingView>, name: Text, dep: DepSpecView)
    requires
        holds_spec(items, name, dep),
    ensures
        holds_spec(items + more, name, dep),
{
    let i = choose|i: int| 0 <= i < items.len() && (#[trigger] items[i]).name == name && items[i].dep == dep;
    assert((items + more)[i] == items[i]);
}

/// Throughout resolution, every dependency of the project and of each package
/// found is asked for, and no other: there are as many as these have together.
/// Each is demanded and looked up in its turn, or is still in the queue; once
/// the queue is empty, each has been demanded and looked up exactly once.
pub proof fn law_every_dependency_is_resolved(s: ResolutionView)
    requires
        s.inv(None),
    ensures
        s.asked().len() == s.deps.len() + dep_count(s.nodes),
        forall|k: int| 0 <= k < s.deps.len() ==> holds_spec(s.asked(), (#[trigger] s.deps[k]).0, s.deps[k].1),
        forall|m: int, k: int|
            0 <= m < s.nodes.len() && 0 <= k < s.nodes[m].direct_deps.len() ==> holds_spec(
                s.asked(),
                (#[trigger] s.nodes[m].direct_deps[k]).0,
                s.nodes[m].direct_deps[k].1,
            ),
        s.log.len() == s.demands.len(),
        forall|i: int|
            0 <= i < s.log.len() ==> s.demands[i] == demand_of(s.asked()[i]) && is_answer(
                s.asked()[i],
                #[trigger] s.log[i],
            ),
        s.queue == s.asked().skip(s.log.len() as int),
        s.queue.len() == 0 ==> s.log.len() == s.asked().len(),
{
    lemma_asked(s.root, s.deps, s.log, s.nodes);
    assert forall|i: int| 0 <= i < s.log.len() implies s.demands[i] == demand_of(s.asked()[i]) && is_answer(
        s.asked()[i],
        #[trigger] s.log[i],
    ) by {
        assert(s.demands[i] == demand_of(s.asked()[i]));
    }
}

/// Over a whole run: where two dependencies on one name are found in different
/// places, a conflict over it is reported.
pub proof fn law_run_reports_sources(s: ResolutionView, i: int, j: int)
    requires
        s.inv(None),
        0 <= i < j < s.log.len(),
        s.asked()[i].name == s.asked()[j].name,
        s.log[i].id != s.log[j].id,
    ensures
        is_reported(s.conflicts, s.asked()[i].name),
{
    assert(is_answer(s.asked()[i], s.log[i]));
    assert(is_answer(s.asked()[j], s.log[j]));
    law_different_sources_are_reported(s.log, i, j);
}

/// Over a whole run: where two dependencies ask for a package and one of them
/// rules out its version, a conflict over it is reported.
pub proof fn law_run_reports_versions(s: ResolutionView, m: int, i: int, j: int)
    requires
        s.inv(None),
        0 <= m < s.nodes.len(),
        0 <= i < s.log.len(),
        0 <= j < s.log.len(),
        i != j,
        s.asked()[i].name == s.nodes[m].name,
        s.asked()[j].name == s.nodes[m].name,
        at_odds(demand_text(s.asked()[i].dep), s.nodes[m].version),
    ensures
        is_reported(s.conflicts + version_conflicts(s.nodes, s.demands, s.conflicts), s.nodes[m].name),
{
    let name = s.nodes[m].name;
    let ds = demands_on(s.demands, name);
    assert(s.demands[i] == demand_of(s.asked()[i]));
    assert(s.demands[j] == demand_of(s.asked()[j]));
    lemma_demands_on(s.demands, i);
    let k = demands_on(s.demands.take(i), name).len() as int;
    assert(at_odds(ds[k].version_req, s.nodes[m].version));
    if i < j {
        lemma_two_demands(s.demands, i, j);
    } else {
        lemma_two_demands(s.demands, j, i);
    }
    law_bad_versions_are_reported(s.nodes, s.demands, s.conflicts, m);
}

/// Over a whole run: where two dependencies ask for a package and one of them
/// states a version requirement, from whatever source it wants the package,
/// that does not admit the package's version, a conflict over it is reported.
pub proof fn law_run_reports_requirements(s: ResolutionView, m: int, i: int, j: int, stated: Text)
    requires
        s.inv(None),
        0 <= m < s.nodes.len(),
        0 <= i < s.log.len(),
        0 <= j < s.log.len(),
        i != j,
        s.asked()[i].name == s.nodes[m].name,
        s.asked()[j].name == s.nodes[m].name,
        s.asked()[i].dep == DepSpecView::VersionReq(stated) || (s.asked()[i].dep matches DepSpecView::Detailed {
            version,
            ..
        } && version == Some(stated)),
        version_req_parses(stated),
        version_parses(s.nodes[m].version),
        !version_req_admits(stated, s.nodes[m].version),
    ensures
        exists|k: int|
            #![trigger (s.conflicts + version_conflicts(s.nodes, s.demands, s.conflicts))[k]]
            0 <= k < (s.conflicts + version_conflicts(s.nodes, s.demands, s.conflicts)).len() && (s.conflicts
                + version_conflicts(s.nodes, s.demands, s.conflicts))[k].package_name == s.nodes[m].name,
{
    assert(demand_text(s.asked()[i].dep) == stated);
    law_run_reports_versions(s, m, i, j);
}

/// Resolution begins with nothing found and the project's own dependencies to
/// be looked for, in order, from the project's directory.
pub proof fn law_run_begins(root: FsPathView, deps: Seq<(Text, DepSpecView)>)
    ensures
        ({
            let s = begun(root, deps);
            &&& s.root == root
            &&& s.deps == deps
            &&& s.queue.len() == deps.len()
            &&& forall|i: int|
                0 <= i < deps.len() ==> {
                    &&& (#[trigger] s.queue[i]).name == deps[i].0
                    &&& s.queue[i].dep == deps[i].1
                    &&& s.queue[i].chain == "root -> "@ + deps[i].0
                    &&& s.queue[i].base == root
                }
            &&& s.seen.len() == 0 && s.nodes.len() == 0 && s.demands.len() == 0
            &&& s.conflicts.len() == 0 && s.log.len() == 0
        }),
{
}

/// To take up a dependency takes the first one out of the queue and notes what
/// it demands, through whom, and of what; nothing else changes.
pub proof fn law_taking_up(s: ResolutionView)
    requires
        s.queue.len() > 0,
    ensures
        ({
            let t = taken(s);
            &&& seq![s.queue[0]] + t.queue == s.queue
            &&& t.demands == s.demands + seq![
                DemandView { name: s.queue[0].name, chain: s.queue[0].chain, req: demand_text(s.queue[0].dep) },
            ]
            &&& t.root == s.root && t.deps == s.deps && t.seen == s.seen && t.nodes == s.nodes
            &&& t.conflicts == s.conflicts && t.log == s.log
        }),
{
    assert(seq![s.queue[0]] + taken(s).queue =~= s.queue);
    assert(taken(s).demands =~= s.demands + seq![demand_of(s.queue[0])]);
}

/// A package found for the first time is added to the packages, and its
/// dependencies to the end of the queue: by name and as its manifest has them,
/// through the package, and from where it was found. What was found and
/// demanded before stays, and no conflict arises.
pub proof fn law_new_package(s: ResolutionView, now: Sighting, node: ResolvedNodeView)
    ensures
        ({
            let t = found_first(s, now, node);
            let n = s.queue.len() as int;
            &&& t.nodes == s.nodes + seq![node]
            &&& t.seen == s.seen + seq![now.id]
            &&& t.log == s.log + seq![now]
            &&& t.queue.len() == n + node.direct_deps.len()
            &&& t.queue.take(n) == s.queue
            &&& forall|i: int|
                0 <= i < node.direct_deps.len() ==> {
                    let item = #[trigger] t.queue[n + i];
                    &&& item.name == node.direct_deps[i].0
                    &&& item.dep == node.direct_deps[i].1
                    &&& item.chain == now.chain + " -> "@ + node.direct_deps[i].0
                    &&& item.base == node_base_view(s.root, node.source)
                }
            &&& t.root == s.root && t.deps == s.deps && t.demands == s.demands && t.conflicts == s.conflicts
        }),
{
    let t = found_first(s, now, node);
    assert(t.nodes =~= s.nodes + seq![node]);
    assert(t.seen =~= s.seen + seq![now.id]);
    assert(t.log =~= s.log + seq![now]);
    assert(t.queue.take(s.queue.len() as int) =~= s.queue);
}

/// A package of a known name is not resolved again: where it is found in the
/// place in which it was first found, nothing but the sighting is noted; where
/// it is found elsewhere, one conflict is, which names both places and through
/// whom the second was asked for.
pub proof fn law_known_package(s: ResolutionView, now: Sighting, p: int)
    requires
        s.keeps_names(Some(now.id.name)),
        0 <= p < s.seen.len(),
        s.seen[p].name == now.id.name,
    ensures
        ({
            let t = found_again(s, now);
            &&& t.nodes == s.nodes && t.seen == s.seen && t.queue == s.queue && t.demands == s.demands
            &&& t.root == s.root && t.deps == s.deps
            &&& t.log == s.log + seq![now]
            &&& s.seen[p].source_fingerprint == now.id.source_fingerprint ==> t.conflicts == s.conflicts
            &&& s.seen[p].source_fingerprint != now.id.source_fingerprint ==> {
                let c = t.conflicts.last();
                &&& t.conflicts.len() == s.conflicts.len() + 1
                &&& t.conflicts.drop_last() == s.conflicts
                &&& c.package_name == now.id.name
                &&& c.kind == ConflictKind::SourceMismatch
                &&& c.demands.len() == 2
                &&& c.demands[0].version_req == s.seen[p].source_fingerprint
                &&& c.demands[0].requester_chain == "（已记录来源）"@
                &&& c.demands[1].version_req == now.id.source_fingerprint
                &&& c.demands[1].requester_chain == now.chain
            }
        }),
{
    let t = found_again(s, now);
    let names = id_names(s.seen);
    assert(names[p] == now.id.name);
    lemma_position(names, now.id.name);
    assert(position(names, now.id.name) == p);
    assert(t.log =~= s.log + seq![now]);
    if s.seen[p].source_fingerprint == now.id.source_fingerprint {
        assert(s.seen[p] == now.id);
        assert(t.conflicts =~= s.conflicts);
    } else {
        assert(t.conflicts.drop_last() =~= s.conflicts);
    }
}

/// Every conflict over sources is between the first sighting of a package and
/// a later one in another place.
pub proof fn law_source_conflict_is_real(log: Seq<Sighting>, k: int)
    requires
        0 <= k < source_conflicts(log).len(),
    ensures
        exists|i: int, j: int|
            #![trigger log[i], log[j]]
            {
                let c = source_conflicts(log)[k];
                &&& 0 <= i < j < log.len()
                &&& log[i].id.name == c.package_name
                &&& log[j].id.name == c.package_name
                &&& forall|g: int| 0 <= g < i ==> (#[trigger] log[g]).id.name != c.package_name
                &&& log[i].id.source_fingerprint != log[j].id.source_fingerprint
                &&& c.kind == ConflictKind::SourceMismatch
                &&& c.demands.len() == 2
                &&& c.demands[0].version_req == log[i].id.source_fingerprint
                &&& c.demands[1].version_req == log[j].id.source_fingerprint
                &&& c.demands[1].requester_chain == log[j].chain
            },
    decreases log.len(),
{
    let front = log.drop_last();
    let before = source_conflicts(front);
    let c = source_conflicts(log)[k];
    if k < before.len() {
        law_source_conflict_is_real(front, k);
        let (i, j) = choose|i: int, j: int|
            #![trigger front[i], front[j]]
            {
                &&& 0 <= i < j < front.len()
                &&& front[i].id.name == before[k].package_name
                &&& front[j].id.name == before[k].package_name
                &&& forall|g: int| 0 <= g < i ==> (#[trigger] front[g]).id.name != before[k].package_name
                &&& front[i].id.source_fingerprint != front[j].id.source_fingerprint
                &&& before[k].kind == ConflictKind::SourceMismatch
                &&& before[k].demands.len() == 2
                &&& before[k].demands[0].version_req == front[i].id.source_fingerprint
                &&& before[k].demands[1].version_req == front[j].id.source_fingerprint
                &&& before[k].demands[1].requester_chain == front[j].chain
            };
        assert(c == before[k]);
        assert(log[i] == front[i] && log[j] == front[j]);
        assert forall|g: int| 0 <= g < i implies (#[trigger] log[g]).id.name != c.package_name by {
            assert(front[g] == log[g]);
        }
    } else {
        let now = log.last();
        let firsts = first_ids(front);
        let p = position(id_names(firsts), now.id.name);
        lemma_position(id_names(firsts), now.id.name);
        lemma_first_ids(front);
        let f = choose|f: int| 0 <= f < front.len() && (#[trigger] front[f]).id == firsts[p] && is_first(front, f);
        assert(id_names(firsts)[p] == now.id.name);
        assert(c == source_conflict(firsts[p], now));
        assert(log[f] == front[f] && log[log.len() - 1] == now);
        assert forall|g: int| 0 <= g < f implies (#[trigger] log[g]).id.name != c.package_name by {
            assert(front[g] == log[g]);
        }
    }
}

/// Throughout resolution each package is known by the place in which it was
/// first found, and has one node, under its own name.
pub proof fn law_first_place_counts(s: ResolutionView, p: int)
    requires
        s.inv(None),
        0 <= p < s.nodes.len(),
    ensures
        s.seen[p].name == s.nodes[p].name,
        exists|f: int|
            #![trigger s.log[f]]
            0 <= f < s.log.len() && s.log[f].id == s.seen[p] && forall|g: int|
                0 <= g < f ==> (#[trigger] s.log[g]).id.name != s.nodes[p].name,
        forall|q: int| 0 <= q < s.nodes.len() && q != p ==> (#[trigger] s.nodes[q]).name != s.nodes[p].name,
{
    assert(id_names(s.seen)[p] == node_names(s.nodes)[p]);
    lemma_first_ids(s.log);
    let f = choose|f: int| 0 <= f < s.log.len() && (#[trigger] s.log[f]).id == s.seen[p] && is_first(s.log, f);
    assert(s.log[f].id == s.seen[p]);
    assert forall|q: int| 0 <= q < s.nodes.len() && q != p implies (#[trigger] s.nodes[q]).name != s.nodes[p].name by {
        assert(node_names(s.nodes)[q] == s.nodes[q].name);
        assert(node_names(s.nodes)[p] == s.nodes[p].name);
        assert(id_names(s.seen)[q] != id_names(s.seen)[p]);
    }
}

/// A package is among the resolved ones just where the project or one of them
/// depends on it.
pub proof fn law_packages_are_complete(roots: Seq<Text>, packages: Seq<ResolvedNodeView>, name: Text)
    requires
        is_complete(roots, packages),
    ensures
        (exists|i: int| 0 <= i < packages.len() && (#[trigger] packages[i]).name == name) <==> {
            ||| exists|r: int| 0 <= r < roots.len() && #[trigger] roots[r] == name
            ||| exists|j: int, k: int|
                #![trigger packages[j].direct_deps[k]]
                0 <= j < packages.len() && 0 <= k < packages[j].direct_deps.len() && packages[j].direct_deps[k].0 == name
        },
{
    let names = node_names(packages);
    assert(is_asked_for(roots, packages, name) <==> names.contains(name));
    if names.contains(name) {
        let i = choose|i: int| 0 <= i < names.len() && names[i] == name;
        assert(packages[i].name == name);
        if roots.contains(name) {
            let r = choose|r: int| 0 <= r < roots.len() && roots[r] == name;
            assert(roots[r] == name);
        } else {
            let j = choose|j: int| 0 <= j < packages.len() && #[trigger] node_asks(packages[j], name);
            let deps = dep_names(packages[j].direct_deps);
            let k = choose|k: int| 0 <= k < deps.len() && deps[k] == name;
            assert(packages[j].direct_deps[k].0 == name);
        }
    } else {
        assert forall|i: int| 0 <= i < packages.len() implies (#[trigger] packages[i]).name != name by {
            assert(names[i] != name);
        }
        assert forall|j: int, k: int|
            0 <= j < packages.len() && 0 <= k < packages[j].direct_deps.len() implies (
        #[trigger] packages[j].direct_deps[k]).0 != name by {
            assert(dep_names(packages[j].direct_deps)[k] == packages[j].direct_deps[k].0);
            assert(!node_asks(packages[j], name));
        }
        assert forall|r: int| 0 <= r < roots.len() implies #[trigger] roots[r] != name by {
            assert(!roots.contains(name));
        }
    }
}

/// No two of the resolved packages have one name.
pub proof fn law_packages_are_distinct(roots: Seq<Text>, packages: Seq<ResolvedNodeView>, i: int, j: int)
    requires
        is_complete(roots, packages),
        0 <= i < j < packages.len(),
    ensures
        packages[i].name != packages[j].name,
{
    assert(node_names(packages)[i] != node_names(packages)[j]);
}

/// A run begins with what the manifest lists under `dependencies`, all of it,
/// in order, and with nothing else.
pub proof fn law_manifest_is_resolved(resolver: &Resolver, manifest: &Manifest, run: Resolution)
    requires
        call_ensures(Resolver::resolve, (resolver, manifest), run),
    ensures
        run@.queue.len() == manifest.dependencies@.len(),
        forall|i: int|
            0 <= i < run@.queue.len() ==> {
                &&& (#[trigger] run@.queue[i]).name == manifest.dependencies@[i].0
                &&& run@.queue[i].dep == manifest.dependencies@[i].1
                &&& run@.queue[i].base == resolver@
            },
        run@.nodes.len() == 0,
        run@.conflicts.len() == 0,
{
    law_run_begins(resolver@, manifest@.dependencies);
}

/// A run takes up the first dependency that is to be looked for, wherever it
/// says to look; it stops at one that says nowhere, and is done where none is
/// left.
pub proof fn law_run_goes_on(run: Resolution, next: Result<Next, ResolveError>)
    requires
        run.wf(),
        call_ensures(Resolution::next, (run,), next),
    ensures
        run@.queue.len() == 0 <==> next matches Ok(Next::Done(_)),
        run@.queue.len() > 0 ==> (next is Err <==> wanted_source(run@.queue[0].dep) is None),
        next matches Ok(Next::Locate(l)) ==> {
            &&& l.item_view() == run@.queue[0]
            &&& wanted_source(run@.queue[0].dep) == Some(l.request_view())
            &&& l.state_view().queue == run@.queue.drop_first()
            &&& l.state_view().nodes == run@.nodes
            &&& l.state_view().conflicts == run@.conflicts
        },
        next matches Ok(Next::Done(d)) ==> d@ == run@,
{
}

/// A package whose manifest was read is among the packages from then on, with
/// what its manifest lists under `dependencies`, which are to be looked for
/// last.
pub proof fn law_manifest_of_package(loading: Loading, found: &str, manifest: &Manifest, run: Resolution)
    requires
        loading.wf(),
        manifest.wf(),
        call_ensures(Loading::loaded, (loading, found, Some(manifest)), run),
    ensures
        run@.nodes.len() == loading.state_view().nodes.len() + 1,
        run@.nodes.last().name == loading.item_view().name,
        run@.nodes.last().version == manifest.version@,
        run@.nodes.last().direct_deps == manifest.dependencies@,
        run@.queue.len() == loading.state_view().queue.len() + manifest.dependencies@.len(),
        forall|i: int|
            0 <= i < manifest.dependencies@.len() ==> {
                let item = #[trigger] run@.queue[loading.state_view().queue.len() + i];
                item.name == manifest.dependencies@[i].0 && item.dep == manifest.dependencies@[i].1
            },
{
}

/// A run that is done comes to all the packages that it found, and to a
/// conflict for each that is found in two places.
pub proof fn law_run_comes_to(run: Resolved, result: Result<ResolveResult, ResolveError>, i: int, j: int)
    requires
        run.wf(),
        call_ensures(Resolved::finish, (run,), result),
    ensures
        result matches Ok(r) ==> {
            &&& r.packages@.len() == run@.nodes.len()
            &&& forall|x: ResolvedNodeView| #[trigger] views(r.packages@).contains(x) <==> run@.nodes.contains(x)
            &&& 0 <= i < j < run@.log.len() && run@.log[i].id.name == run@.log[j].id.name && run@.log[i].id
                != run@.log[j].id ==> exists|k: int|
                0 <= k < r.conflicts@.len() && (#[trigger] views(r.conflicts@)[k]).package_name == run@.log[i].id.name
        },
        result is Err <==> exists|v: int| 0 <= v < run@.nodes.len() && !#[trigger] can_be_built(run@.nodes, v),
{
    let stuck = stuck_names(run@.nodes);
    if stuck.len() > 0 {
        assert(stuck.contains(stuck[0]));
        law_stuck_names(run@.nodes, stuck[0]);
    }
    if exists|v: int| 0 <= v < run@.nodes.len() && !#[trigger] can_be_built(run@.nodes, v) {
        let v = choose|v: int| 0 <= v < run@.nodes.len() && !#[trigger] can_be_built(run@.nodes, v);
        law_stuck_names(run@.nodes, run@.nodes[v].name);
    }
    if let Ok(r) = result {
        assert(views(r.packages@).len() == run@.nodes.len());
        assert(views(r.conflicts@).len() == r.conflicts@.len());
        if 0 <= i < j < run@.log.len() && run@.log[i].id.name == run@.log[j].id.name && run@.log[i].id
            != run@.log[j].id {
            law_different_sources_are_reported(run@.log, i, j);
            let name = run@.log[i].id.name;
            let k = choose|k: int| 0 <= k < run@.conflicts.len() && (#[trigger] run@.conflicts[k]).package_name == name;
            assert(views(r.conflicts@)[k] == run@.conflicts[k]);
            assert(views(r.conflicts@)[k].package_name == name);
        }
    }
}

/// What a finished run comes to holds a conflict over each package that two
/// dependencies ask for, one of which states a version requirement that does not
/// admit the package's version.
pub proof fn law_result_reports_requirements(
    run: Resolved,
    result: Result<ResolveResult, ResolveError>,
    m: int,
    i: int,
    j: int,
    stated: Text,
)
    requires
        run.wf(),
        call_ensures(Resolved::finish, (run,), result),
        0 <= m < run@.nodes.len(),
        0 <= i < run@.log.len(),
        0 <= j < run@.log.len(),
        i != j,
        run@.asked()[i].name == run@.nodes[m].name,
        run@.asked()[j].name == run@.nodes[m].name,
        run@.asked()[i].dep matches DepSpecView::Detailed { version, .. } && version == Some(stated),
        version_req_parses(stated),
        version_parses(run@.nodes[m].version),
        !version_req_admits(stated, run@.nodes[m].version),
    ensures
        result matches Ok(r) ==> exists|k: int|
            0 <= k < r.conflicts@.len() && (#[trigger] views(r.conflicts@)[k]).package_name == run@.nodes[m].name,
{
    if let Ok(r) = result {
        law_run_reports_requirements(run@, m, i, j, stated);
        let name = run@.nodes[m].name;
        let all = run@.conflicts + version_conflicts(run@.nodes, run@.demands, run@.conflicts);
        assert(views(r.conflicts@) == all);
        let k = choose|k: int| #![trigger all[k]] 0 <= k < all.len() && all[k].package_name == name;
        assert(views(r.conflicts@)[k].package_name == name);
        assert(views(r.conflicts@).len() == r.conflicts@.len());
    }
}

/// A finished run comes to no conflict where each package was always found in
/// one place and nothing that is demanded of it, and reads as a requirement,
/// fails to admit its version.
pub proof fn law_result_without_conflicts(run: Resolved, result: Result<ResolveResult, ResolveError>)
    requires
        run.wf(),
        call_ensures(Resolved::finish, (run,), result),
        forall|i: int, j: int|
            0 <= i < j < run@.log.len() && run@.log[i].id.name == run@.log[j].id.name ==> (#[trigger] run@.log[i]).id == (
            #[trigger] run@.log[j]).id,
        forall|m: int, i: int|
            #![trigger run@.nodes[m], run@.demands[i]]
            0 <= m < run@.nodes.len() && 0 <= i < run@.demands.len() && run@.demands[i].name == run@.nodes[m].name
                && version_parses(run@.nodes[m].version) && version_req_parses(run@.demands[i].req)
                ==> version_req_admits(run@.demands[i].req, run@.nodes[m].version),
    ensures
        result matches Ok(r) ==> r.conflicts@.len() == 0,
{
    let s = run@;
    law_one_source_each(s.log);
    let found = version_conflicts(s.nodes, s.demands, s.conflicts);
    if found.len() > 0 {
        law_found_conflict(s.nodes, s.demands, s.conflicts, 0);
        let c = found[0];
        let (m, k) = choose|m: int, k: int|
            #![trigger s.nodes[m], c.demands[k]]
            {
                &&& 0 <= m < s.nodes.len()
                &&& s.nodes[m].name == c.package_name
                &&& 0 <= k < c.demands.len()
                &&& version_parses(s.nodes[m].version)
                &&& version_req_parses(c.demands[k].version_req)
                &&& !version_req_admits(c.demands[k].version_req, s.nodes[m].version)
            };
        let d = c.demands[k];
        assert(demands_on(s.demands, c.package_name).contains(d));
        law_demands_on(s.demands, c.package_name, d.requester_chain, d.version_req);
        let wanted = DemandView { name: c.package_name, chain: d.requester_chain, req: d.version_req };
        let i = choose|i: int| 0 <= i < s.demands.len() && s.demands[i] == wanted;
        assert(s.demands[i].name == s.nodes[m].name);
    }
    if let Ok(r) = result {
        assert(views(r.conflicts@).len() == r.conflicts@.len());
    }
}

/// A dependency that was looked up is a new package just where none of its name
/// is resolved yet; of a known name, the packages and what is to be looked for
/// stay as they are, and there is a conflict more just where it was first found
/// in another place.
pub proof fn law_looked_up(locating: Locating, found: &str, located: Located, p: int)
    requires
        locating.wf(),
        call_ensures(Locating::found, (locating, found), located),
        0 <= p < locating.state_view().nodes.len() ==> locating.state_view().nodes[p].name == locating.item_view().name,
    ensures
        0 <= p < locating.state_view().nodes.len() ==> (located matches Located::Known(run) && {
            let s = locating.state_view();
            let place = found_id(locating.item_view().name, locating.request_view(), found@).source_fingerprint;
            &&& run@.nodes == s.nodes
            &&& run@.queue == s.queue
            &&& run@.conflicts.len() == s.conflicts.len() + (if s.seen[p].source_fingerprint == place {
                0int
            } else {
                1int
            })
        }),
        (forall|q: int|
            0 <= q < locating.state_view().nodes.len() ==> (#[trigger] locating.state_view().nodes[q]).name
                != locating.item_view().name) ==> (located matches Located::New(loading) && loading.state_view()
            == locating.state_view() && loading.item_view() == locating.item_view()),
{
    let s = locating.state_view();
    let name = locating.item_view().name;
    let names = node_names(s.nodes);
    let id = found_id(name, locating.request_view(), found@);
    if 0 <= p < s.nodes.len() {
        assert(names[p] == name);
        assert(s.knows(name));
        assert(s.seen[p].name == id_names(s.seen)[p]);
        law_known_package(s, Sighting { id, chain: locating.item_view().chain }, p);
    }
    if forall|q: int| 0 <= q < s.nodes.len() ==> (#[trigger] s.nodes[q]).name != name {
        assert(!s.knows(name)) by {
            if s.knows(name) {
                let q = choose|q: int| 0 <= q < names.len() && names[q] == name;
                assert(s.nodes[q].name == name);
            }
        }
    }
}

} // verus!
