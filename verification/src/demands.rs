//! Demands on versions that a resolved package does not meet.
use vstd::prelude::*;
use vstd::string::*;

use crate::manifest::DepSpecView;
use crate::resolution::{Demand, DemandView};
use crate::resolver::{
    declared_version, demand_text, node_names, wanted_source, Conflict, ConflictDemand, ConflictDemandView,
    ConflictKind, ConflictView, ResolvedNode, ResolvedNodeView,
};
use crate::text::{lemma_views_push, same_text, views, Text};
use crate::version::{
    at_odds, rules_out, starts_with_word, version_parses, version_req_admits, version_req_parses,
};

verus! {

/// The demands on one package, in order.
pub open spec fn demands_on(demands: Seq<DemandView>, name: Text) -> Seq<ConflictDemandView>
    decreases demands.len(),
{
    if demands.len() == 0 {
        Seq::empty()
    } else {
        let front = demands_on(demands.drop_last(), name);
        let last = demands.last();
        if last.name == name {
            front.push(ConflictDemandView { requester_chain: last.chain, version_req: last.req })
        } else {
            front
        }
    }
}

/// For each demand, whether it rules out the version.
pub open spec fn odds_with(demands: Seq<ConflictDemandView>, version: Text) -> Seq<bool> {
    Seq::new(demands.len(), |i: int| at_odds(demands[i].version_req, version))
}

/// The conflict that demands on one package make, given which of them rule
/// out its version: there is one where there are several demands and one of
/// them does.
pub open spec fn version_conflict(name: Text, demands: Seq<ConflictDemandView>, odds: Seq<bool>) -> Option<
    ConflictView,
> {
    if demands.len() > 1 && odds.contains(true) {
        Some(ConflictView { package_name: name, kind: ConflictKind::VersionIncompatible, demands })
    } else {
        None
    }
}

/// Whether a conflict over that package is among those given.
pub open spec fn is_reported(conflicts: Seq<ConflictView>, name: Text) -> bool {
    exists|i: int| 0 <= i < conflicts.len() && (#[trigger] conflicts[i]).package_name == name
}

/// The conflict, if any, that is to be added for a package.
pub open spec fn added_conflict(
    node: ResolvedNodeView,
    demands: Seq<DemandView>,
    reported: Seq<ConflictView>,
) -> Option<ConflictView> {
    if is_reported(reported, node.name) {
        None
    } else {
        let ds = demands_on(demands, node.name);
        version_conflict(node.name, ds, odds_with(ds, node.version))
    }
}

/// The conflicts over versions, of packages over which none is reported yet.
pub open spec fn version_conflicts(
    nodes: Seq<ResolvedNodeView>,
    demands: Seq<DemandView>,
    reported: Seq<ConflictView>,
) -> Seq<ConflictView>
    decreases nodes.len(),
{
    if nodes.len() == 0 {
        Seq::empty()
    } else {
        let front = version_conflicts(nodes.drop_last(), demands, reported);
        match added_conflict(nodes.last(), demands, reported) {
            Some(c) => front.push(c),
            None => front,
        }
    }
}

/// Whether every demand names a source instead of a version.
pub open spec fn only_sources(demands: Seq<ConflictDemandView>) -> bool {
    forall|k: int| 0 <= k < demands.len() ==> starts_with_word((#[trigger] demands[k]).version_req)
}

/// Picks the demands on one package.
fn pick_demands(demands: &Vec<Demand>, name: &str) -> (picked: Vec<ConflictDemand>)
    ensures
        views(picked@) == demands_on(views(demands@), name@),
{
    let ghost all = views(demands@);
    let mut picked: Vec<ConflictDemand> = Vec::new();
    let mut i: usize = 0;
    assert(views(picked@) =~= demands_on(all.take(0), name@));
    while i < demands.len()
        invariant
            all == views(demands@),
            i <= all.len(),
            views(picked@) == demands_on(all.take(i as int), name@),
        decreases all.len() - i,
    {
        assert(all.take(i + 1).drop_last() =~= all.take(i as int));
        assert(all[i as int] == demands@[i as int]@);
        if same_text(demands[i].name.as_str(), name) {
            let d = ConflictDemand {
                requester_chain: demands[i].chain.clone(),
                version_req: demands[i].req.clone(),
            };
            proof {
                lemma_views_push(picked@, d);
            }
            picked.push(d);
        }
        i = i + 1;
    }
    assert(all.take(i as int) =~= all);
    picked
}

/// The conflict that demands on one package make, given which of them rule
/// out its version.
pub fn version_conflict_from(name: &str, demands: Vec<ConflictDemand>, odds: &Vec<bool>) -> (conflict: Option<Conflict>)
    ensures
        match conflict {
            Some(c) => version_conflict(name@, views(demands@), odds@) == Some(c@),
            None => version_conflict(name@, views(demands@), odds@) is None,
        },
{
    let mut any = false;
    let mut i: usize = 0;
    while i < odds.len()
        invariant
            i <= odds@.len(),
            any <==> exists|k: int| 0 <= k < i && #[trigger] odds@[k],
        decreases odds.len() - i,
    {
        if odds[i] {
            any = true;
        }
        i = i + 1;
    }
    proof {
        if any {
            let k = choose|k: int| 0 <= k < i && #[trigger] odds@[k];
            assert(odds@[k] == true);
            assert(odds@.contains(true));
        } else if odds@.contains(true) {
            let k = choose|k: int| 0 <= k < odds@.len() && odds@[k] == true;
            assert(odds@[k]);
        }
    }
    if demands.len() > 1 && any {
        Some(Conflict { package_name: String::from_str(name), kind: ConflictKind::VersionIncompatible, demands })
    } else {
        None
    }
}

/// Which demands rule out the version. A demand that names a source instead
/// of a version rules out nothing.
fn find_odds(demands: &Vec<ConflictDemand>, version: &str) -> (odds: Vec<bool>)
    ensures
        odds@ == odds_with(views(demands@), version@),
        forall|i: int|
            0 <= i < demands@.len() && starts_with_word(views(demands@)[i].version_req) ==> !#[trigger] odds@[i],
{
    let mut odds: Vec<bool> = Vec::new();
    let mut i: usize = 0;
    while i < demands.len()
        invariant
            i <= demands@.len(),
            odds@.len() == i,
            forall|k: int| 0 <= k < i ==> #[trigger] odds@[k] == at_odds(views(demands@)[k].version_req, version@),
            forall|k: int| 0 <= k < i && starts_with_word(views(demands@)[k].version_req) ==> !#[trigger] odds@[k],
        decreases demands.len() - i,
    {
        odds.push(rules_out(demands[i].version_req.as_str(), version));
        i = i + 1;
    }
    assert(odds@ =~= odds_with(views(demands@), version@));
    odds
}

fn reported(conflicts: &Vec<Conflict>, name: &str) -> (is: bool)
    ensures
        is == is_reported(views(conflicts@), name@),
{
    let mut i: usize = 0;
    while i < conflicts.len()
        invariant
            i <= conflicts@.len(),
            forall|k: int| 0 <= k < i ==> (#[trigger] views(conflicts@)[k]).package_name != name@,
        decreases conflicts.len() - i,
    {
        assert(views(conflicts@)[i as int] == conflicts@[i as int]@);
        if same_text(conflicts[i].package_name.as_str(), name) {
            return true;
        }
        i = i + 1;
    }
    false
}

/// Finds the packages whose version does not meet all that is demanded of
/// them, leaving out those over which a conflict is reported already. Demands
/// that name sources make no conflict over a version.
pub fn find_version_conflicts(
    nodes: &Vec<ResolvedNode>,
    demands: &Vec<Demand>,
    known: &Vec<Conflict>,
) -> (found: Vec<Conflict>)
    ensures
        views(found@) == version_conflicts(views(nodes@), views(demands@), views(known@)),
        forall|k: int|
            0 <= k < found@.len() ==> !only_sources(
                demands_on(views(demands@), (#[trigger] views(found@)[k]).package_name),
            ),
{
    let ghost all = views(nodes@);
    let mut found: Vec<Conflict> = Vec::new();
    let mut i: usize = 0;
    assert(views(found@) =~= version_conflicts(all.take(0), views(demands@), views(known@)));
    while i < nodes.len()
        invariant
            all == views(nodes@),
            i <= all.len(),
            views(found@) == version_conflicts(all.take(i as int), views(demands@), views(known@)),
            forall|k: int|
                0 <= k < found@.len() ==> !only_sources(
                    demands_on(views(demands@), (#[trigger] views(found@)[k]).package_name),
                ),
        decreases all.len() - i,
    {
        assert(all.take(i + 1).drop_last() =~= all.take(i as int));
        assert(all[i as int] == nodes@[i as int]@);
        let name = nodes[i].name.as_str();
        if !reported(known, name) {
            let picked = pick_demands(demands, name);
            let odds = find_odds(&picked, nodes[i].version.as_str());
            let ghost ds = views(picked@);
            match version_conflict_from(name, picked, &odds) {
                Some(c) => {
                    proof {
                        lemma_views_push(found@, c);
                        let k = choose|k: int| 0 <= k < odds@.len() && odds@[k] == true;
                        assert(!starts_with_word(ds[k].version_req));
                        assert(!only_sources(ds));
                    }
                    found.push(c);
                },
                None => {},
            }
        }
        i = i + 1;
    }
    assert(all.take(i as int) =~= all);
    found
}

/// A conflict over a package is reported just where one was reported before,
/// or where it is demanded more than once and one of the demands rules out its
/// version.
pub proof fn law_bad_versions_are_reported(
    nodes: Seq<ResolvedNodeView>,
    demands: Seq<DemandView>,
    known: Seq<ConflictView>,
    i: int,
)
    requires
        node_names(nodes).no_duplicates(),
        0 <= i < nodes.len(),
    ensures
        is_reported(known + version_conflicts(nodes, demands, known), nodes[i].name) <==> {
            ||| is_reported(known, nodes[i].name)
            ||| {
                let ds = demands_on(demands, nodes[i].name);
                ds.len() > 1 && exists|k: int|
                    0 <= k < ds.len() && at_odds((#[trigger] ds[k]).version_req, nodes[i].version)
            }
        },
{
    lemma_added(nodes[i], demands, known);
    lemma_reported_if_added(nodes, demands, known, i);
}

/// A conflict is added for a package just where none is reported, and it is
/// demanded more than once and one of the demands rules out its version.
proof fn lemma_added(node: ResolvedNodeView, demands: Seq<DemandView>, known: Seq<ConflictView>)
    ensures
        added_conflict(node, demands, known) is Some <==> {
            let ds = demands_on(demands, node.name);
            &&& !is_reported(known, node.name)
            &&& ds.len() > 1
            &&& exists|k: int| 0 <= k < ds.len() && at_odds((#[trigger] ds[k]).version_req, node.version)
        },
{
    let ds = demands_on(demands, node.name);
    let odds = odds_with(ds, node.version);
    if odds.contains(true) {
        let k = choose|k: int| 0 <= k < odds.len() && odds[k] == true;
        assert(at_odds(ds[k].version_req, node.version));
    }
    if exists|k: int| 0 <= k < ds.len() && at_odds((#[trigger] ds[k]).version_req, node.version) {
        let k = choose|k: int| 0 <= k < ds.len() && at_odds((#[trigger] ds[k]).version_req, node.version);
        assert(odds[k] == true);
    }
}

/// A conflict over a package is reported in the end just where one was
/// reported before or one is added for it.
proof fn lemma_reported_if_added(
    nodes: Seq<ResolvedNodeView>,
    demands: Seq<DemandView>,
    known: Seq<ConflictView>,
    i: int,
)
    requires
        node_names(nodes).no_duplicates(),
        0 <= i < nodes.len(),
    ensures
        is_reported(known + version_conflicts(nodes, demands, known), nodes[i].name) <==> is_reported(
            known,
            nodes[i].name,
        ) || added_conflict(nodes[i], demands, known) is Some,
{
    let name = nodes[i].name;
    let found = version_conflicts(nodes, demands, known);
    let all = known + found;
    lemma_found_conflicts(nodes, demands, known);
    if is_reported(known, name) {
        let k = choose|k: int| 0 <= k < known.len() && (#[trigger] known[k]).package_name == name;
        assert(all[k].package_name == name);
    } else if added_conflict(nodes[i], demands, known) is Some {
        let k = choose|k: int| 0 <= k < found.len() && Some(#[trigger] found[k]) == added_conflict(nodes[i], demands, known);
        assert(all[known.len() + k].package_name == name);
    } else if is_reported(all, name) {
        let k = choose|k: int| 0 <= k < all.len() && (#[trigger] all[k]).package_name == name;
        if k < known.len() {
            assert(known[k].package_name == name);
        } else {
            let c = found[k - known.len()];
            let j = choose|j: int| 0 <= j < nodes.len() && Some(c) == added_conflict(#[trigger] nodes[j], demands, known);
            assert(node_names(nodes)[i] == node_names(nodes)[j]);
        }
    }
}

/// The conflicts found are those that are to be added for the packages.
proof fn lemma_found_conflicts(nodes: Seq<ResolvedNodeView>, demands: Seq<DemandView>, known: Seq<ConflictView>)
    ensures
        forall|i: int|
            0 <= i < nodes.len() && added_conflict(#[trigger] nodes[i], demands, known) is Some ==> exists|k: int|
                0 <= k < version_conflicts(nodes, demands, known).len() && Some(
                    #[trigger] version_conflicts(nodes, demands, known)[k],
                ) == added_conflict(nodes[i], demands, known),
        forall|k: int|
            0 <= k < version_conflicts(nodes, demands, known).len() ==> exists|i: int|
                0 <= i < nodes.len() && Some(#[trigger] version_conflicts(nodes, demands, known)[k]) == added_conflict(
                    #[trigger] nodes[i],
                    demands,
                    known,
                ),
    decreases nodes.len(),
{
    if nodes.len() > 0 {
        let part = nodes.drop_last();
        let front = version_conflicts(part, demands, known);
        let all = version_conflicts(nodes, demands, known);
        lemma_found_conflicts(part, demands, known);
        assert forall|i: int|
            0 <= i < nodes.len() && added_conflict(#[trigger] nodes[i], demands, known) is Some implies exists|k: int|
            0 <= k < all.len() && Some(#[trigger] all[k]) == added_conflict(nodes[i], demands, known) by {
            if i < part.len() {
                assert(part[i] == nodes[i]);
                let k = choose|k: int|
                    0 <= k < front.len() && Some(#[trigger] front[k]) == added_conflict(part[i], demands, known);
                assert(all[k] == front[k]);
            } else {
                assert(Some(all[front.len() as int]) == added_conflict(nodes[i], demands, known));
            }
        }
        assert forall|k: int| 0 <= k < all.len() implies exists|i: int|
            0 <= i < nodes.len() && Some(#[trigger] all[k]) == added_conflict(#[trigger] nodes[i], demands, known) by {
            if k < front.len() {
                assert(all[k] == front[k]);
                let i = choose|i: int|
                    0 <= i < part.len() && Some(front[k]) == added_conflict(#[trigger] part[i], demands, known);
                assert(nodes[i] == part[i]);
            } else {
                assert(Some(all[k]) == added_conflict(nodes[nodes.len() - 1], demands, known));
            }
        }
    }
}

/// What a dependency demands that gives a source and no version begins like
/// no version requirement does.
pub proof fn law_source_demands(dep: DepSpecView)
    requires
        wanted_source(dep) is Some,
        declared_version(dep) is None,
    ensures
        starts_with_word(demand_text(dep)),
{
    reveal_strlit("git+");
    reveal_strlit("path:");
}

/// A demand on a package is among the demands on it, behind those made before.
pub proof fn lemma_demands_on(demands: Seq<DemandView>, i: int)
    requires
        0 <= i < demands.len(),
    ensures
        ({
            let ds = demands_on(demands, demands[i].name);
            let k = demands_on(demands.take(i), demands[i].name).len() as int;
            &&& k < ds.len()
            &&& ds[k] == (ConflictDemandView { requester_chain: demands[i].chain, version_req: demands[i].req })
        }),
    decreases demands.len(),
{
    let front = demands.drop_last();
    if i < front.len() {
        lemma_demands_on(front, i);
        assert(front.take(i) =~= demands.take(i));
    } else {
        assert(demands.take(i) =~= front);
    }
}

/// Of a package that is demanded twice there are several demands.
pub proof fn lemma_two_demands(demands: Seq<DemandView>, i: int, j: int)
    requires
        0 <= i < j < demands.len(),
        demands[i].name == demands[j].name,
    ensures
        demands_on(demands, demands[i].name).len() > 1,
{
    let front = demands.take(j);
    assert(front[i] == demands[i]);
    lemma_demands_on(front, i);
    lemma_demands_on(demands, j);
}

/// The demands on a package are those that name it, with their chain and what
/// they demand, and no others.
pub proof fn law_demands_on(demands: Seq<DemandView>, name: Text, chain: Text, req: Text)
    ensures
        demands_on(demands, name).contains(ConflictDemandView { requester_chain: chain, version_req: req })
            <==> demands.contains(DemandView { name, chain, req }),
    decreases demands.len(),
{
    let x = ConflictDemandView { requester_chain: chain, version_req: req };
    let d = DemandView { name, chain, req };
    let ds = demands_on(demands, name);
    if demands.len() > 0 {
        let part = demands.drop_last();
        let front = demands_on(part, name);
        law_demands_on(part, name, chain, req);
        if ds.contains(x) {
            let k = choose|k: int| 0 <= k < ds.len() && ds[k] == x;
            if k < front.len() {
                assert(front[k] == x);
                let i = choose|i: int| 0 <= i < part.len() && part[i] == d;
                assert(demands[i] == d);
            } else {
                assert(demands[demands.len() - 1] == d);
            }
        }
        if demands.contains(d) {
            let i = choose|i: int| 0 <= i < demands.len() && demands[i] == d;
            if i < part.len() {
                assert(part[i] == d);
                let k = choose|k: int| 0 <= k < front.len() && front[k] == x;
                assert(ds[k] == x);
            } else {
                assert(ds[front.len() as int] == x);
            }
        }
    }
}

/// Demands made later stand behind those made before, and take nothing from
/// them.
pub proof fn law_demands_in_order(a: Seq<DemandView>, b: Seq<DemandView>, name: Text)
    ensures
        demands_on(a + b, name) == demands_on(a, name) + demands_on(b, name),
    decreases b.len(),
{
    if b.len() == 0 {
        assert(a + b =~= a);
        assert(demands_on(a, name) + demands_on(b, name) =~= demands_on(a, name));
    } else {
        law_demands_in_order(a, b.drop_last(), name);
        assert((a + b).drop_last() =~= a + b.drop_last());
        assert(demands_on(a + b, name) =~= demands_on(a, name) + demands_on(b, name));
    }
}

/// A conflict that is found speaks of a resolved package over which none was
/// reported, calls the versions incompatible, and shows all that is demanded of
/// the package: several demands, one of which reads as a requirement that does
/// not admit the version.
pub proof fn law_found_conflict(
    nodes: Seq<ResolvedNodeView>,
    demands: Seq<DemandView>,
    known: Seq<ConflictView>,
    k: int,
)
    requires
        0 <= k < version_conflicts(nodes, demands, known).len(),
    ensures
        ({
            let c = version_conflicts(nodes, demands, known)[k];
            &&& c.kind == ConflictKind::VersionIncompatible
            &&& c.demands == demands_on(demands, c.package_name)
            &&& c.demands.len() > 1
            &&& forall|j: int| 0 <= j < known.len() ==> (#[trigger] known[j]).package_name != c.package_name
            &&& exists|i: int, j: int|
                #![trigger nodes[i], c.demands[j]]
                {
                    &&& 0 <= i < nodes.len()
                    &&& nodes[i].name == c.package_name
                    &&& 0 <= j < c.demands.len()
                    &&& version_parses(nodes[i].version)
                    &&& version_req_parses(c.demands[j].version_req)
                    &&& !version_req_admits(c.demands[j].version_req, nodes[i].version)
                }
        }),
{
    lemma_found_conflicts(nodes, demands, known);
    let c = version_conflicts(nodes, demands, known)[k];
    let i = choose|i: int| 0 <= i < nodes.len() && Some(c) == added_conflict(#[trigger] nodes[i], demands, known);
    lemma_added(nodes[i], demands, known);
    let ds = demands_on(demands, nodes[i].name);
    let j = choose|j: int| 0 <= j < ds.len() && at_odds((#[trigger] ds[j]).version_req, nodes[i].version);
    assert(nodes[i].name == c.package_name && c.demands[j] == ds[j]);
}

/// Conflicts are found in the order of the packages, those of the first
/// packages first.
pub proof fn law_conflicts_in_order(
    a: Seq<ResolvedNodeView>,
    b: Seq<ResolvedNodeView>,
    demands: Seq<DemandView>,
    known: Seq<ConflictView>,
)
    ensures
        version_conflicts(a + b, demands, known) == version_conflicts(a, demands, known) + version_conflicts(
            b,
            demands,
            known,
        ),
    decreases b.len(),
{
    if b.len() == 0 {
        assert(a + b =~= a);
        assert(version_conflicts(a, demands, known) + version_conflicts(b, demands, known) =~= version_conflicts(
            a,
            demands,
            known,
        ));
    } else {
        law_conflicts_in_order(a, b.drop_last(), demands, known);
        assert((a + b).drop_last() =~= a + b.drop_last());
        assert(version_conflicts(a + b, demands, known) =~= version_conflicts(a, demands, known) + version_conflicts(
            b,
            demands,
            known,
        ));
    }
}

/// A package of which several things are demanded, one of which reads as a
/// requirement that does not admit its version, is reported.
pub proof fn law_unmet_requirement_is_reported(
    nodes: Seq<ResolvedNodeView>,
    demands: Seq<DemandView>,
    known: Seq<ConflictView>,
    m: int,
    i: int,
    j: int,
)
    requires
        node_names(nodes).no_duplicates(),
        0 <= m < nodes.len(),
        0 <= i < demands.len(),
        0 <= j < demands.len(),
        i != j,
        demands[i].name == nodes[m].name,
        demands[j].name == nodes[m].name,
        version_req_parses(demands[i].req),
        version_parses(nodes[m].version),
        !version_req_admits(demands[i].req, nodes[m].version),
    ensures
        exists|k: int|
            0 <= k < (known + version_conflicts(nodes, demands, known)).len() && (#[trigger] (known + version_conflicts(
                nodes,
                demands,
                known,
            ))[k]).package_name == nodes[m].name,
{
    let ds = demands_on(demands, nodes[m].name);
    lemma_demands_on(demands, i);
    let k = demands_on(demands.take(i), nodes[m].name).len() as int;
    assert(at_odds(ds[k].version_req, nodes[m].version));
    if i < j {
        lemma_two_demands(demands, i, j);
    } else {
        lemma_two_demands(demands, j, i);
    }
    law_bad_versions_are_reported(nodes, demands, known, m);
}

} // verus!
