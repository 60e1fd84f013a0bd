//! Composite boundaries: every edge that crosses the boundary of a composite
//! declaring ports carries a named port binding, every binding names a
//! declared port that the edge really crosses, and no payload type is owned
//! by two ports of the same direction.

use vstd::prelude::*;
use crate::annotations::{BoundaryPortSpec, CompositePortRef, PortDirection, TopologySubgraphInfo};
use crate::edge::DirectedEdge;
use crate::graph::index_of;
use crate::ids::StageId;
use crate::validation::TopologyError;

verus! {

/// `id` is a member stage of the composite.
pub open spec fn is_member(sg: TopologySubgraphInfo, id: StageId) -> bool {
    sg.member_stage_ids@.contains(id)
}

/// `e` crosses the composite's boundary in direction `dir`: inward for
/// `Input`, outward for `Output`.
pub open spec fn crosses(sg: TopologySubgraphInfo, e: DirectedEdge, dir: PortDirection) -> bool {
    match dir {
        PortDirection::Input => !is_member(sg, e.from) && is_member(sg, e.to),
        PortDirection::Output => is_member(sg, e.from) && !is_member(sg, e.to),
    }
}

/// `e` crosses the composite's boundary one way or the other.
pub open spec fn crossing(sg: TopologySubgraphInfo, e: DirectedEdge) -> bool {
    crosses(sg, e, PortDirection::Input) || crosses(sg, e, PortDirection::Output)
}

/// `e` crosses port `p` of the composite: in the port's direction, at the
/// port's member stage.
pub open spec fn port_fits(sg: TopologySubgraphInfo, p: BoundaryPortSpec, e: DirectedEdge) -> bool {
    &&& crosses(sg, e, p.direction)
    &&& match p.direction {
        PortDirection::Input => e.to == p.member_stage_id,
        PortDirection::Output => e.from == p.member_stage_id,
    }
}

/// Port `j` of composite `i` is the one the binding `r` names.
pub open spec fn port_named(subs: Seq<TopologySubgraphInfo>, i: int, j: int, r: CompositePortRef) -> bool {
    &&& 0 <= i < subs.len()
    &&& 0 <= j < subs[i].boundary_ports@.len()
    &&& subs[i].subgraph_id@ == r.subgraph_id@
    &&& subs[i].boundary_ports@[j].name@ == r.port_name@
}

/// Some composite declares the port that `r` names.
pub open spec fn names_port(subs: Seq<TopologySubgraphInfo>, r: CompositePortRef) -> bool {
    exists|i: int, j: int| #[trigger] port_named(subs, i, j, r)
}

/// The binding `r` names a declared port that `e` crosses.
pub open spec fn ref_fits(subs: Seq<TopologySubgraphInfo>, e: DirectedEdge, r: CompositePortRef) -> bool {
    exists|i: int, j: int| #[trigger] port_named(subs, i, j, r) && port_fits(subs[i], subs[i].boundary_ports@[j], e)
}

/// `e` carries a binding naming the composite.
pub open spec fn bound_to(e: DirectedEdge, sg: TopologySubgraphInfo) -> bool {
    exists|k: int| 0 <= k < e.composite_ports@.len() && (#[trigger] e.composite_ports@[k]).subgraph_id@ == sg.subgraph_id@
}

/// Ports `j1 < j2` of the composite have the same direction and share a
/// payload type (`a`-th of the first, `b`-th of the second).
pub open spec fn shared_payload(sg: TopologySubgraphInfo, j1: int, j2: int, a: int, b: int) -> bool {
    let ports = sg.boundary_ports@;
    &&& 0 <= j1 < j2 < ports.len()
    &&& ports[j1].direction == ports[j2].direction
    &&& 0 <= a < ports[j1].payload_event_types@.len()
    &&& 0 <= b < ports[j2].payload_event_types@.len()
    &&& ports[j1].payload_event_types@[a]@ == ports[j2].payload_event_types@[b]@
}

/// No payload type of the composite has two owners of the same direction.
pub open spec fn ownership_ok(sg: TopologySubgraphInfo) -> bool {
    forall|j1: int, j2: int, a: int, b: int| !#[trigger] shared_payload(sg, j1, j2, a, b)
}

/// The composite-boundary rules hold for the edges and the registry.
pub open spec fn boundaries_ok(edges: Seq<DirectedEdge>, subs: Seq<TopologySubgraphInfo>) -> bool {
    &&& forall|i: int| 0 <= i < subs.len() ==> ownership_ok(#[trigger] subs[i])
    &&& forall|x: int, k: int| 0 <= x < edges.len() && 0 <= k < edges[x].composite_ports@.len()
        ==> ref_fits(subs, edges[x], #[trigger] edges[x].composite_ports@[k])
    &&& forall|x: int, i: int| 0 <= x < edges.len() && 0 <= i < subs.len() && subs[i].boundary_ports@.len() > 0
        && #[trigger] crossing(subs[i], edges[x]) ==> bound_to(edges[x], subs[i])
}

/// `(k1, k2, c, d)` comes before `(j1, j2, a, b)` in the order the
/// ownership check visits port pairs and their payloads.
pub open spec fn visited_before(k1: int, k2: int, c: int, d: int, j1: int, j2: int, a: int, b: int) -> bool {
    ||| k1 < j1
    ||| k1 == j1 && k2 < j2
    ||| k1 == j1 && k2 == j2 && c < a
    ||| k1 == j1 && k2 == j2 && c == a && d < b
}

/// `(j1, j2, a, b)` is the first shared payload of the composite.
pub open spec fn first_shared(sg: TopologySubgraphInfo, j1: int, j2: int, a: int, b: int) -> bool {
    &&& shared_payload(sg, j1, j2, a, b)
    &&& forall|k1: int, k2: int, c: int, d: int| #[trigger] shared_payload(sg, k1, k2, c, d)
        ==> !visited_before(k1, k2, c, d, j1, j2, a, b)
}

/// The `k`-th binding of edge `x` names no declared port that the edge
/// crosses.
pub open spec fn bad_ref(edges: Seq<DirectedEdge>, subs: Seq<TopologySubgraphInfo>, x: int, k: int) -> bool {
    &&& 0 <= x < edges.len()
    &&& 0 <= k < edges[x].composite_ports@.len()
    &&& !ref_fits(subs, edges[x], edges[x].composite_ports@[k])
}

/// `(x, k)` is the first bad binding, edge by edge and binding by binding.
pub open spec fn first_bad_ref(edges: Seq<DirectedEdge>, subs: Seq<TopologySubgraphInfo>, x: int, k: int) -> bool {
    &&& bad_ref(edges, subs, x, k)
    &&& forall|y: int, l: int| #[trigger] bad_ref(edges, subs, y, l) ==> !(y < x || (y == x && l < k))
}

/// Port `j` of composite `i` is the first declared port that `r` names.
pub open spec fn first_named(subs: Seq<TopologySubgraphInfo>, i: int, j: int, r: CompositePortRef) -> bool {
    &&& port_named(subs, i, j, r)
    &&& forall|ii: int, jj: int| #[trigger] port_named(subs, ii, jj, r) ==> !(ii < i || (ii == i && jj < j))
}

/// Edge `x` crosses the boundary of composite `i`, which declares ports,
/// and carries no binding naming it.
pub open spec fn unbound_at(edges: Seq<DirectedEdge>, subs: Seq<TopologySubgraphInfo>, x: int, i: int) -> bool {
    &&& 0 <= x < edges.len()
    &&& 0 <= i < subs.len()
    &&& subs[i].boundary_ports@.len() > 0
    &&& crossing(subs[i], edges[x])
    &&& !bound_to(edges[x], subs[i])
}

/// `(x, i)` is the first unbound crossing, edge by edge and composite by
/// composite.
pub open spec fn first_unbound(edges: Seq<DirectedEdge>, subs: Seq<TopologySubgraphInfo>, x: int, i: int) -> bool {
    &&& unbound_at(edges, subs, x, i)
    &&& forall|y: int, l: int| #[trigger] unbound_at(edges, subs, y, l) ==> !(y < x || (y == x && l < i))
}

/// `e` reports payload `a` shared by ports `j1` and `j2` of composite `i`.
pub open spec fn ownership_report(e: TopologyError, subs: Seq<TopologySubgraphInfo>, i: int, j1: int, j2: int, a: int) -> bool {
    e matches TopologyError::OverlappingPayloadOwnership { subgraph_id, payload, direction, first_port, second_port }
    && subgraph_id@ == subs[i].subgraph_id@
    && payload@ == subs[i].boundary_ports@[j1].payload_event_types@[a]@
    && direction == subs[i].boundary_ports@[j1].direction
    && first_port@ == subs[i].boundary_ports@[j1].name@
    && second_port@ == subs[i].boundary_ports@[j2].name@
}

/// `e` reports that edge `x` names port `j` of composite `i` without
/// crossing it.
pub open spec fn mismatch_report(e: TopologyError, edges: Seq<DirectedEdge>, subs: Seq<TopologySubgraphInfo>, x: int, i: int, j: int) -> bool {
    e matches TopologyError::CompositePortMismatch { from, to, subgraph_id, port_name, direction }
    && from == edges[x].from && to == edges[x].to
    && subgraph_id@ == subs[i].subgraph_id@
    && port_name@ == subs[i].boundary_ports@[j].name@
    && direction == subs[i].boundary_ports@[j].direction
}

/// `e` reports the bad binding `k` of edge `x`: an unknown port when no
/// composite declares the name, otherwise the first declared port of that
/// name.
pub open spec fn ref_report(e: TopologyError, edges: Seq<DirectedEdge>, subs: Seq<TopologySubgraphInfo>, x: int, k: int) -> bool {
    let r = edges[x].composite_ports@[k];
    if !names_port(subs, r) {
        e matches TopologyError::UnknownCompositePort { from, to, subgraph_id, port_name }
        && from == edges[x].from && to == edges[x].to
        && subgraph_id@ == r.subgraph_id@ && port_name@ == r.port_name@
    } else {
        exists|i: int, j: int| #[trigger] first_named(subs, i, j, r) && mismatch_report(e, edges, subs, x, i, j)
    }
}

/// `e` reports that edge `x` crosses composite `i` unbound.
pub open spec fn unbound_report(e: TopologyError, edges: Seq<DirectedEdge>, subs: Seq<TopologySubgraphInfo>, x: int, i: int) -> bool {
    e matches TopologyError::UnboundCompositeCrossing { from, to, subgraph_id }
    && from == edges[x].from && to == edges[x].to && subgraph_id@ == subs[i].subgraph_id@
}

/// `e` reports the first violation of the composite-boundary rules, in the
/// order they are checked: payload ownership composite by composite, then
/// the bindings edge by edge, then the crossings edge by edge.
pub open spec fn is_boundary_error(e: TopologyError, edges: Seq<DirectedEdge>, subs: Seq<TopologySubgraphInfo>) -> bool {
    if exists|i: int| 0 <= i < subs.len() && !ownership_ok(#[trigger] subs[i]) {
        exists|i: int, j1: int, j2: int, a: int, b: int| 0 <= i < subs.len()
            && (forall|ii: int| 0 <= ii < i ==> ownership_ok(#[trigger] subs[ii]))
            && #[trigger] first_shared(subs[i], j1, j2, a, b)
            && ownership_report(e, subs, i, j1, j2, a)
    } else if exists|x: int, k: int| #[trigger] bad_ref(edges, subs, x, k) {
        exists|x: int, k: int| #[trigger] first_bad_ref(edges, subs, x, k) && ref_report(e, edges, subs, x, k)
    } else {
        exists|x: int, i: int| #[trigger] first_unbound(edges, subs, x, i) && unbound_report(e, edges, subs, x, i)
    }
}

/// The first bad binding, given that every binding before `(x, k)` fits and
/// the one at `(x, k)` does not.
proof fn lemma_first_bad_ref(edges: Seq<DirectedEdge>, subs: Seq<TopologySubgraphInfo>, x: int, k: int)
    requires
        bad_ref(edges, subs, x, k),
        forall|xx: int, kk: int| 0 <= xx < x && 0 <= kk < edges[xx].composite_ports@.len()
            ==> ref_fits(subs, edges[xx], #[trigger] edges[xx].composite_ports@[kk]),
        forall|kk: int| 0 <= kk < k ==> ref_fits(subs, edges[x], #[trigger] edges[x].composite_ports@[kk]),
    ensures
        first_bad_ref(edges, subs, x, k),
{
    assert forall|y: int, l: int| #[trigger] bad_ref(edges, subs, y, l) implies !(y < x || (y == x && l < k)) by {
        if y < x {
            assert(ref_fits(subs, edges[y], edges[y].composite_ports@[l]));
        } else if y == x && l < k {
            assert(ref_fits(subs, edges[x], edges[x].composite_ports@[l]));
        }
    }
}

fn member_exec(sg: &TopologySubgraphInfo, id: StageId) -> (r: bool)
    ensures
        r == is_member(*sg, id),
{
    index_of(&sg.member_stage_ids, id).is_some()
}

fn crosses_exec(sg: &TopologySubgraphInfo, e: &DirectedEdge, dir: PortDirection) -> (r: bool)
    ensures
        r == crosses(*sg, *e, dir),
{
    let f = member_exec(sg, e.from);
    let t = member_exec(sg, e.to);
    match dir {
        PortDirection::Input => !f && t,
        PortDirection::Output => f && !t,
    }
}

fn port_fits_exec(sg: &TopologySubgraphInfo, p: &BoundaryPortSpec, e: &DirectedEdge) -> (r: bool)
    ensures
        r == port_fits(*sg, *p, *e),
{
    if !crosses_exec(sg, e, p.direction) {
        return false;
    }
    match p.direction {
        PortDirection::Input => e.to == p.member_stage_id,
        PortDirection::Output => e.from == p.member_stage_id,
    }
}

/// What looking up a binding finds.
enum PortLookup {
    /// A named port that the edge crosses.
    Fits,
    /// No declared port has the name.
    Unknown,
    /// The port `.1` of composite `.0` has the name, and no named port fits.
    Mismatch(usize, usize),
}

fn lookup_port(subs: &[TopologySubgraphInfo], e: &DirectedEdge, r: &CompositePortRef) -> (res: PortLookup)
    ensures
        match res {
            PortLookup::Fits => ref_fits(subs@, *e, *r),
            PortLookup::Unknown => !names_port(subs@, *r),
            PortLookup::Mismatch(i, j) => first_named(subs@, i as int, j as int, *r) && !ref_fits(subs@, *e, *r),
        },
{
    let mut first: Option<(usize, usize)> = None;
    let mut i: usize = 0;
    while i < subs.len()
        invariant
            i <= subs@.len(),
            forall|ii: int, jj: int| #[trigger] port_named(subs@, ii, jj, *r) && ii < i
                ==> !port_fits(subs@[ii], subs@[ii].boundary_ports@[jj], *e),
            match first {
                Some((a, b)) => first_named(subs@, a as int, b as int, *r),
                None => forall|ii: int, jj: int| #[trigger] port_named(subs@, ii, jj, *r) ==> ii >= i,
            },
        decreases subs.len() - i,
    {
        let sg = &subs[i];
        if sg.subgraph_id == r.subgraph_id {
            let mut j: usize = 0;
            while j < sg.boundary_ports.len()
                invariant
                    i < subs@.len(),
                    *sg == subs@[i as int],
                    sg.subgraph_id@ == r.subgraph_id@,
                    j <= sg.boundary_ports@.len(),
                    forall|ii: int, jj: int| #[trigger] port_named(subs@, ii, jj, *r) && (ii < i || (ii == i && jj < j))
                        ==> !port_fits(subs@[ii], subs@[ii].boundary_ports@[jj], *e),
                    match first {
                        Some((a, b)) => first_named(subs@, a as int, b as int, *r),
                        None => forall|ii: int, jj: int| #[trigger] port_named(subs@, ii, jj, *r) ==> ii > i || (ii == i && jj >= j),
                    },
                decreases sg.boundary_ports.len() - j,
            {
                let p = &sg.boundary_ports[j];
                if p.name == r.port_name {
                    if port_fits_exec(sg, p, e) {
                        proof {
                            assert(port_named(subs@, i as int, j as int, *r));
                        }
                        return PortLookup::Fits;
                    }
                    if first.is_none() {
                        first = Some((i, j));
                    }
                }
                j = j + 1;
            }
        }
        i = i + 1;
    }
    match first {
        Some((a, b)) => PortLookup::Mismatch(a, b),
        None => PortLookup::Unknown,
    }
}

fn bound_exec(e: &DirectedEdge, sg: &TopologySubgraphInfo) -> (r: bool)
    ensures
        r == bound_to(*e, *sg),
{
    let mut k: usize = 0;
    while k < e.composite_ports.len()
        invariant
            k <= e.composite_ports@.len(),
            forall|kk: int| 0 <= kk < k ==> (#[trigger] e.composite_ports@[kk]).subgraph_id@ != sg.subgraph_id@,
        decreases e.composite_ports.len() - k,
    {
        if e.composite_ports[k].subgraph_id == sg.subgraph_id {
            return true;
        }
        k = k + 1;
    }
    false
}

/// Two ports of the composite with the same direction and a shared payload
/// type, if there are any.
fn ownership_fault(sg: &TopologySubgraphInfo) -> (r: Option<(usize, usize, usize, usize)>)
    ensures
        match r {
            Some((j1, j2, a, b)) => first_shared(*sg, j1 as int, j2 as int, a as int, b as int),
            None => ownership_ok(*sg),
        },
{
    let ports = &sg.boundary_ports;
    let n = ports.len();
    let mut j1: usize = 0;
    while j1 < n
        invariant
            n == ports@.len(),
            *ports == sg.boundary_ports,
            j1 <= n,
            forall|x1: int, x2: int, a: int, b: int| x1 < j1 ==> !#[trigger] shared_payload(*sg, x1, x2, a, b),
        decreases n - j1,
    {
        let mut j2: usize = j1 + 1;
        while j2 < n
            invariant
                n == ports@.len(),
                *ports == sg.boundary_ports,
                j1 < n,
                j1 < j2 <= n,
                forall|x1: int, x2: int, a: int, b: int| x1 < j1 ==> !#[trigger] shared_payload(*sg, x1, x2, a, b),
                forall|x2: int, a: int, b: int| x2 < j2 ==> !#[trigger] shared_payload(*sg, j1 as int, x2, a, b),
            decreases n - j2,
        {
            if ports[j1].direction == ports[j2].direction {
                let pa = &ports[j1].payload_event_types;
                let pb = &ports[j2].payload_event_types;
                let mut a: usize = 0;
                while a < pa.len()
                    invariant
                        n == ports@.len(),
                        *ports == sg.boundary_ports,
                        j1 < j2 < n,
                        *pa == ports@[j1 as int].payload_event_types,
                        *pb == ports@[j2 as int].payload_event_types,
                        ports@[j1 as int].direction == ports@[j2 as int].direction,
                        forall|x1: int, x2: int, c: int, d: int| x1 < j1 ==> !#[trigger] shared_payload(*sg, x1, x2, c, d),
                        forall|x2: int, c: int, d: int| x2 < j2 ==> !#[trigger] shared_payload(*sg, j1 as int, x2, c, d),
                        a <= pa@.len(),
                        forall|x: int, b: int| x < a ==> !#[trigger] shared_payload(*sg, j1 as int, j2 as int, x, b),
                    decreases pa.len() - a,
                {
                    let mut b: usize = 0;
                    while b < pb.len()
                        invariant
                            n == ports@.len(),
                            *ports == sg.boundary_ports,
                            j1 < j2 < n,
                            *pa == ports@[j1 as int].payload_event_types,
                            *pb == ports@[j2 as int].payload_event_types,
                            ports@[j1 as int].direction == ports@[j2 as int].direction,
                            forall|x1: int, x2: int, c: int, d: int| x1 < j1 ==> !#[trigger] shared_payload(*sg, x1, x2, c, d),
                            forall|x2: int, c: int, d: int| x2 < j2 ==> !#[trigger] shared_payload(*sg, j1 as int, x2, c, d),
                            a < pa@.len(),
                            b <= pb@.len(),
                            forall|x: int, y: int| x < a ==> !#[trigger] shared_payload(*sg, j1 as int, j2 as int, x, y),
                            forall|y: int| y < b ==> !#[trigger] shared_payload(*sg, j1 as int, j2 as int, a as int, y),
                        decreases pb.len() - b,
                    {
                        if pa[a] == pb[b] {
                            proof {
                                assert(shared_payload(*sg, j1 as int, j2 as int, a as int, b as int));
                                assert forall|k1: int, k2: int, c: int, d: int| #[trigger] shared_payload(*sg, k1, k2, c, d)
                                    implies !visited_before(k1, k2, c, d, j1 as int, j2 as int, a as int, b as int) by {
                                    if k1 < j1 {
                                    } else if k1 == j1 && k2 < j2 {
                                    } else if k1 == j1 && k2 == j2 && c < a {
                                    } else {
                                    }
                                }
                            }
                            return Some((j1, j2, a, b));
                        }
                        b = b + 1;
                    }
                    a = a + 1;
                }
            }
            j2 = j2 + 1;
        }
        j1 = j1 + 1;
    }
    None
}

/// Validate the composite boundaries: payload ownership first, then every
/// binding, then every crossing edge.
pub fn validate_boundaries(edges: &[DirectedEdge], subs: &[TopologySubgraphInfo]) -> (r: Result<(), TopologyError>)
    ensures
        r is Ok <==> boundaries_ok(edges@, subs@),
        r matches Err(e) ==> is_boundary_error(e, edges@, subs@),
{
    let mut i: usize = 0;
    while i < subs.len()
        invariant
            i <= subs@.len(),
            forall|ii: int| 0 <= ii < i ==> ownership_ok(#[trigger] subs@[ii]),
        decreases subs.len() - i,
    {
        match ownership_fault(&subs[i]) {
            Some((j1, j2, a, b)) => {
                let port1 = &subs[i].boundary_ports[j1];
                let port2 = &subs[i].boundary_ports[j2];
                let err = TopologyError::OverlappingPayloadOwnership {
                    subgraph_id: subs[i].subgraph_id.clone(),
                    payload: port1.payload_event_types[a].clone(),
                    direction: port1.direction,
                    first_port: port1.name.clone(),
                    second_port: port2.name.clone(),
                };
                proof {
                    assert(shared_payload(subs@[i as int], j1 as int, j2 as int, a as int, b as int));
                    assert(!ownership_ok(subs@[i as int]));
                    assert(first_shared(subs@[i as int], j1 as int, j2 as int, a as int, b as int));
                }
                return Err(err);
            },
            None => {},
        }
        i = i + 1;
    }
    let mut x: usize = 0;
    while x < edges.len()
        invariant
            x <= edges@.len(),
            forall|ii: int| 0 <= ii < subs@.len() ==> ownership_ok(#[trigger] subs@[ii]),
            forall|xx: int, k: int| 0 <= xx < x && 0 <= k < edges@[xx].composite_ports@.len()
                ==> ref_fits(subs@, edges@[xx], #[trigger] edges@[xx].composite_ports@[k]),
        decreases edges.len() - x,
    {
        let e = &edges[x];
        let mut k: usize = 0;
        while k < e.composite_ports.len()
            invariant
                x < edges@.len(),
                *e == edges@[x as int],
                k <= e.composite_ports@.len(),
                forall|ii: int| 0 <= ii < subs@.len() ==> ownership_ok(#[trigger] subs@[ii]),
                forall|xx: int, kk: int| 0 <= xx < x && 0 <= kk < edges@[xx].composite_ports@.len()
                    ==> ref_fits(subs@, edges@[xx], #[trigger] edges@[xx].composite_ports@[kk]),
                forall|kk: int| 0 <= kk < k ==> ref_fits(subs@, *e, #[trigger] e.composite_ports@[kk]),
            decreases e.composite_ports.len() - k,
        {
            let r = &e.composite_ports[k];
            match lookup_port(subs, e, r) {
                PortLookup::Fits => {},
                PortLookup::Unknown => {
                    let err = TopologyError::UnknownCompositePort {
                        from: e.from,
                        to: e.to,
                        subgraph_id: r.subgraph_id.clone(),
                        port_name: r.port_name.clone(),
                    };
                    proof {
                        assert(!names_port(subs@, edges@[x as int].composite_ports@[k as int]));
                        lemma_first_bad_ref(edges@, subs@, x as int, k as int);
                    }
                    return Err(err);
                },
                PortLookup::Mismatch(si, pj) => {
                    let p = &subs[si].boundary_ports[pj];
                    let err = TopologyError::CompositePortMismatch {
                        from: e.from,
                        to: e.to,
                        subgraph_id: subs[si].subgraph_id.clone(),
                        port_name: p.name.clone(),
                        direction: p.direction,
                    };
                    proof {
                        assert(port_named(subs@, si as int, pj as int, edges@[x as int].composite_ports@[k as int]));
                        assert(first_named(subs@, si as int, pj as int, edges@[x as int].composite_ports@[k as int]));
                        lemma_first_bad_ref(edges@, subs@, x as int, k as int);
                    }
                    return Err(err);
                },
            }
            k = k + 1;
        }
        proof {
            assert forall|xx: int, kk: int| 0 <= xx < x + 1 && 0 <= kk < edges@[xx].composite_ports@.len()
                implies ref_fits(subs@, edges@[xx], #[trigger] edges@[xx].composite_ports@[kk]) by {
                if xx == x as int {
                    assert(e.composite_ports@[kk] == edges@[xx].composite_ports@[kk]);
                }
            }
        }
        x = x + 1;
    }
    let mut x: usize = 0;
    while x < edges.len()
        invariant
            x <= edges@.len(),
            forall|ii: int| 0 <= ii < subs@.len() ==> ownership_ok(#[trigger] subs@[ii]),
            forall|xx: int, k: int| 0 <= xx < edges@.len() && 0 <= k < edges@[xx].composite_ports@.len()
                ==> ref_fits(subs@, edges@[xx], #[trigger] edges@[xx].composite_ports@[k]),
            forall|xx: int, ii: int| 0 <= xx < x && 0 <= ii < subs@.len() && subs@[ii].boundary_ports@.len() > 0
                && #[trigger] crossing(subs@[ii], edges@[xx]) ==> bound_to(edges@[xx], subs@[ii]),
        decreases edges.len() - x,
    {
        let e = &edges[x];
        let mut i: usize = 0;
        while i < subs.len()
            invariant
                x < edges@.len(),
                *e == edges@[x as int],
                i <= subs@.len(),
                forall|ii: int| 0 <= ii < subs@.len() ==> ownership_ok(#[trigger] subs@[ii]),
                forall|xx: int, k: int| 0 <= xx < edges@.len() && 0 <= k < edges@[xx].composite_ports@.len()
                    ==> ref_fits(subs@, edges@[xx], #[trigger] edges@[xx].composite_ports@[k]),
                forall|xx: int, ii: int| 0 <= xx < x && 0 <= ii < subs@.len() && subs@[ii].boundary_ports@.len() > 0
                    && #[trigger] crossing(subs@[ii], edges@[xx]) ==> bound_to(edges@[xx], subs@[ii]),
                forall|ii: int| 0 <= ii < i && subs@[ii].boundary_ports@.len() > 0
                    && #[trigger] crossing(subs@[ii], *e) ==> bound_to(*e, subs@[ii]),
            decreases subs.len() - i,
        {
            let sg = &subs[i];
            if sg.boundary_ports.len() > 0
                && (crosses_exec(sg, e, PortDirection::Input) || crosses_exec(sg, e, PortDirection::Output))
                && !bound_exec(e, sg) {
                let err = TopologyError::UnboundCompositeCrossing {
                    from: e.from,
                    to: e.to,
                    subgraph_id: sg.subgraph_id.clone(),
                };
                proof {
                    assert(crossing(subs@[i as int], edges@[x as int]));
                    assert(unbound_at(edges@, subs@, x as int, i as int));
                    assert forall|y: int, l: int| #[trigger] unbound_at(edges@, subs@, y, l)
                        implies !(y < x || (y == x && l < i)) by {
                    }
                    assert(first_unbound(edges@, subs@, x as int, i as int));
                    assert forall|y: int, l: int| !#[trigger] bad_ref(edges@, subs@, y, l) by {
                        if 0 <= y < edges@.len() && 0 <= l < edges@[y].composite_ports@.len() {
                            assert(ref_fits(subs@, edges@[y], edges@[y].composite_ports@[l]));
                        }
                    }
                }
                return Err(err);
            }
            i = i + 1;
        }
        x = x + 1;
    }
    Ok(())
}

} // verus!
