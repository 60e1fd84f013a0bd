//! Hash indexes over stage ids, for lookups in constant expected time.

use vstd::prelude::*;
use std::collections::{HashMap, HashSet};
use crate::edge::DirectedEdge;
use crate::ids::StageId;
use crate::stage_info::StageInfo;
use crate::validation::{distinct_ids, has_stage, touches, pair_key};
use crate::topology::targets_of;

verus! {

/// The position of each stage, keyed by the value of its id.
pub(crate) fn position_index(stages: &[StageInfo]) -> (m: HashMap<u128, usize>)
    requires
        distinct_ids(stages@),
    ensures
        forall|v: u128| #[trigger] m@.contains_key(v) <==> has_stage(stages@, StageId { value: v }),
        forall|v: u128| #[trigger] m@.contains_key(v) ==> m@[v] < stages@.len() && stages@[m@[v] as int].id.value == v,
{
    let mut m: HashMap<u128, usize> = HashMap::new();
    let mut i: usize = 0;
    while i < stages.len()
        invariant
            i <= stages@.len(),
            distinct_ids(stages@),
            forall|v: u128| #[trigger] m@.contains_key(v) <==> exists|k: int| 0 <= k < i && (#[trigger] stages@[k]).id.value == v,
            forall|v: u128| #[trigger] m@.contains_key(v) ==> m@[v] < i && stages@[m@[v] as int].id.value == v,
        decreases stages.len() - i,
    {
        m.insert(stages[i].id.value, i);
        proof {
            assert(stages@[i as int].id.value == stages[i as int].id.value);
        }
        i = i + 1;
    }
    proof {
        assert forall|v: u128| #[trigger] m@.contains_key(v) <==> has_stage(stages@, StageId { value: v }) by {
            if has_stage(stages@, StageId { value: v }) {
                let k = choose|k: int| 0 <= k < stages@.len() && (#[trigger] stages@[k]).id == StageId { value: v };
                assert(stages@[k].id.value == v);
            }
            if m@.contains_key(v) {
                let k = choose|k: int| 0 <= k < i && (#[trigger] stages@[k]).id.value == v;
                assert(stages@[k].id == StageId { value: v });
            }
        }
    }
    m
}

/// The position the index holds for `v`, if any.
pub(crate) fn position_of_value(m: &HashMap<u128, usize>, v: u128) -> (r: Option<usize>)
    ensures
        match r {
            Some(p) => m@.contains_key(v) && m@[v] == p,
            None => !m@.contains_key(v),
        },
{
    match m.get(&v) {
        Some(p) => Some(*p),
        None => None,
    }
}

/// The id values that some edge starts or ends at.
pub(crate) fn touched_values(edges: &[DirectedEdge]) -> (s: HashSet<u128>)
    ensures
        forall|v: u128| #[trigger] s@.contains(v) <==> touches(edges@, StageId { value: v }),
{
    let mut s: HashSet<u128> = HashSet::new();
    let mut i: usize = 0;
    while i < edges.len()
        invariant
            i <= edges@.len(),
            forall|v: u128| #[trigger] s@.contains(v) <==> exists|k: int| 0 <= k < i
                && ((#[trigger] edges@[k]).from.value == v || edges@[k].to.value == v),
        decreases edges.len() - i,
    {
        s.insert(edges[i].from.value);
        s.insert(edges[i].to.value);
        i = i + 1;
    }
    proof {
        assert forall|v: u128| #[trigger] s@.contains(v) <==> touches(edges@, StageId { value: v }) by {
            if s@.contains(v) {
                let k = choose|k: int| 0 <= k < i && ((#[trigger] edges@[k]).from.value == v || edges@[k].to.value == v);
                assert(edges@[k].from == StageId { value: v } || edges@[k].to == StageId { value: v });
            }
            if touches(edges@, StageId { value: v }) {
                let k = choose|k: int| 0 <= k < edges@.len() && ((#[trigger] edges@[k]).from == StageId { value: v }
                    || edges@[k].to == StageId { value: v });
                assert(edges@[k].from.value == v || edges@[k].to.value == v);
            }
        }
    }
    s
}

/// Whether the id value is in the set.
pub(crate) fn holds_value(s: &HashSet<u128>, v: u128) -> (r: bool)
    ensures
        r == s@.contains(v),
{
    s.contains(&v)
}

/// The pair keys of the edges, given positions for all their endpoints.
pub(crate) fn link_keys(pos: &HashMap<u128, usize>, edges: &[DirectedEdge]) -> (s: HashSet<u128>)
    requires
        forall|j: int| 0 <= j < edges@.len() ==> pos@.contains_key((#[trigger] edges@[j]).from.value)
            && pos@.contains_key(edges@[j].to.value),
    ensures
        forall|k: u128| #[trigger] s@.contains(k) <==> exists|j: int| 0 <= j < edges@.len() && k == #[trigger] pair_key(pos@, edges@[j]),
{
    let mut s: HashSet<u128> = HashSet::new();
    let mut i: usize = 0;
    while i < edges.len()
        invariant
            i <= edges@.len(),
            forall|j: int| 0 <= j < edges@.len() ==> pos@.contains_key((#[trigger] edges@[j]).from.value)
                && pos@.contains_key(edges@[j].to.value),
            forall|k: u128| #[trigger] s@.contains(k) <==> exists|j: int| 0 <= j < i && k == #[trigger] pair_key(pos@, edges@[j]),
        decreases edges.len() - i,
    {
        let a = match position_of_value(pos, edges[i].from.value) {
            Some(a) => a,
            None => { proof { assert(false); } 0 },
        };
        let b = match position_of_value(pos, edges[i].to.value) {
            Some(b) => b,
            None => { proof { assert(false); } 0 },
        };
        let key = pair_key_of(a, b);
        s.insert(key);
        proof {
            assert(key == pair_key(pos@, edges@[i as int]));
            assert forall|k: u128| #[trigger] s@.contains(k) <==> exists|j: int| 0 <= j < i + 1 && k == #[trigger] pair_key(pos@, edges@[j]) by {
                if s@.contains(k) && k != key {
                    let j = choose|j: int| 0 <= j < i && k == #[trigger] pair_key(pos@, edges@[j]);
                }
            }
        }
        i = i + 1;
    }
    s
}

/// The pair key of positions `a` and `b`.
pub(crate) fn pair_key_of(a: usize, b: usize) -> (k: u128)
    ensures
        k == a * 0x1_0000_0000_0000_0000 + b,
{
    proof {
        assert((a as int) * 0x1_0000_0000_0000_0000 + (b as int) <= 0xffff_ffff_ffff_ffff_ffff_ffff_ffff_ffff) by (nonlinear_arith)
            requires
                a < 0x1_0000_0000_0000_0000int,
                b < 0x1_0000_0000_0000_0000int,
        ;
    }
    (a as u128) * 0x1_0000_0000_0000_0000u128 + (b as u128)
}

/// The list `m` keeps for `v`, empty when it keeps none.
pub open spec fn neighbours_at(m: Map<u128, Vec<StageId>>, v: u128) -> Seq<StageId> {
    if m.contains_key(v) { m[v]@ } else { Seq::empty() }
}

/// For each stage id value, the other ends of its edges in edge order:
/// targets of the edges leaving it when `outgoing`, sources of those
/// entering it otherwise.
pub(crate) fn neighbour_index(edges: &[DirectedEdge], outgoing: bool) -> (m: HashMap<u128, Vec<StageId>>)
    ensures
        forall|v: u128| #[trigger] neighbours_at(m@, v) == targets_of(edges@, StageId { value: v }, outgoing),
{
    let mut m: HashMap<u128, Vec<StageId>> = HashMap::new();
    let mut i: usize = 0;
    while i < edges.len()
        invariant
            i <= edges@.len(),
            forall|v: u128| #[trigger] neighbours_at(m@, v)
                == targets_of(edges@.subrange(0, i as int), StageId { value: v }, outgoing),
        decreases edges.len() - i,
    {
        let e = &edges[i];
        let (key, other) = if outgoing { (e.from.value, e.to) } else { (e.to.value, e.from) };
        let ghost before = m@;
        let mut list = match m.remove(&key) {
            Some(l) => l,
            None => Vec::new(),
        };
        proof {
            assert(list@ == neighbours_at(before, key));
        }
        list.push(other);
        m.insert(key, list);
        proof {
            let pre = edges@.subrange(0, i as int);
            let post = edges@.subrange(0, i + 1);
            assert(post.drop_last() =~= pre);
            assert(post.last() == *e);
            assert forall|v: u128| #[trigger] neighbours_at(m@, v)
                == targets_of(post, StageId { value: v }, outgoing) by {
                assert(targets_of(post, StageId { value: v }, outgoing)
                    == (if outgoing && e.from == (StageId { value: v }) {
                        targets_of(pre, StageId { value: v }, outgoing).push(e.to)
                    } else if !outgoing && e.to == (StageId { value: v }) {
                        targets_of(pre, StageId { value: v }, outgoing).push(e.from)
                    } else {
                        targets_of(pre, StageId { value: v }, outgoing)
                    }));
                if v != key {
                    assert(neighbours_at(m@, v) == neighbours_at(before, v));
                    if outgoing {
                        assert(e.from != StageId { value: v });
                    } else {
                        assert(e.to != StageId { value: v });
                    }
                } else {
                    if outgoing {
                        assert(e.from == StageId { value: v });
                    } else {
                        assert(e.to == StageId { value: v });
                    }
                }
            }
        }
        i = i + 1;
    }
    proof {
        assert(edges@.subrange(0, edges@.len() as int) =~= edges@);
    }
    m
}

/// The list the index keeps for `v`, copied; empty when it keeps none.
pub(crate) fn neighbours_of(m: &HashMap<u128, Vec<StageId>>, v: u128) -> (r: Vec<StageId>)
    ensures
        r@ == neighbours_at(m@, v),
{
    match m.get(&v) {
        Some(l) => l.clone(),
        None => Vec::new(),
    }
}

/// The length of the list the index keeps for `v` (0 when it keeps none).
pub(crate) fn neighbour_count(m: &HashMap<u128, Vec<StageId>>, v: u128) -> (r: usize)
    ensures
        r == neighbours_at(m@, v).len(),
{
    match m.get(&v) {
        Some(l) => l.len(),
        None => 0,
    }
}

} // verus!
