//! From a half-edge mesh to the compact representation. The half-edges on
//! faces, the vertices and the faces are numbered in the order of their
//! slots; boundary half-edges are left out, so a half-edge whose twin is on
//! the boundary has no twin in the compact mesh. Each edge gets a number
//! when the first of its half-edges comes.
use vstd::prelude::*;

use std::collections::HashMap;

use crate::compact_mesh::{CompactMesh, MeshCounts};
use crate::halfedge::{
    cycle_len, cycle_seq, is_cycle_of, key_slot, lemma_walk_error_sticks, walk, walk_outcome, walk_returns_at, walk_step, walk_terminates,
    HalfEdgeId, MeshView, WalkKind,
};
use crate::mesh::{in_slot_order, HalfEdgeMesh};
use crate::traversals::TraversalError;

verus! {

broadcast use vstd::std_specs::hash::group_hash_axioms;

/// The keys among `hk` of half-edges that are on a face, in order.
pub open spec fn face_keys(m: MeshView, hk: Seq<u64>) -> Seq<u64>
    decreases hk.len(),
{
    if hk.len() == 0 {
        Seq::empty()
    } else {
        let s = face_keys(m, hk.drop_last());
        if m.halfedges[hk.last()].face is Some {
            s.push(hk.last())
        } else {
            s
        }
    }
}

/// The position of `k` in `s`.
pub open spec fn pos_in(s: Seq<u64>, k: u64) -> int {
    choose|i: int| 0 <= i < s.len() && s[i] == k
}

/// The edge numbers of the first `n` face half-edges `hs`, and how many
/// numbers were given: a half-edge takes its twin's number when the twin
/// came before it, else the next number.
pub open spec fn edge_assign(m: MeshView, hs: Seq<u64>, n: int) -> (Seq<u32>, nat)
    decreases n,
{
    if n <= 0 {
        (Seq::empty(), 0)
    } else {
        let (es, c) = edge_assign(m, hs, n - 1);
        let t = m.halfedges[hs[n - 1]].twin->Some_0.0;
        if hs.take(n - 1).contains(t) {
            (es.push(es[pos_in(hs, t)]), c)
        } else {
            (es.push(c as u32), c + 1)
        }
    }
}

/// One compact half-edge: twin, next, prev, vertex and face numbers.
pub type CompactEntry = (Option<u32>, u32, u32, u32, u32);

/// The compact half-edge of the face half-edge `h`, or the first error met
/// computing it: a missing `next`, a `next` loop that fails, a missing
/// vertex.
pub open spec fn entry_of(m: MeshView, hs: Seq<u64>, vk: Seq<u64>, fk: Seq<u64>, h: u64) -> Result<CompactEntry, TraversalError> {
    let he = m.halfedges[h];
    let t = he.twin->Some_0;
    let tw = if m.halfedges[t.0].face is Some {
        Some(pos_in(hs, t.0) as u32)
    } else {
        None
    };
    match he.next {
        None => Err(TraversalError::HalfEdgeHasNoNext(HalfEdgeId(h))),
        Some(nx) => match walk_outcome(m, WalkKind::Next, h) {
            Err(e) => Err(e),
            Ok(c) => match he.vertex {
                None => Err(TraversalError::HalfEdgeHasNoVertex(HalfEdgeId(h))),
                Some(v) => Ok(
                    (
                        tw,
                        pos_in(hs, nx.0) as u32,
                        pos_in(hs, c.last().0) as u32,
                        pos_in(vk, v.0) as u32,
                        pos_in(fk, he.face->Some_0.0) as u32,
                    ),
                ),
            },
        },
    }
}

/// The compact half-edges of the first `n` face half-edges, or the first
/// error met.
pub open spec fn entries(m: MeshView, hs: Seq<u64>, vk: Seq<u64>, fk: Seq<u64>, n: int) -> Result<Seq<CompactEntry>, TraversalError>
    decreases n,
{
    if n <= 0 {
        Ok(Seq::empty())
    } else {
        match entries(m, hs, vk, fk, n - 1) {
            Err(e) => Err(e),
            Ok(s) => match entry_of(m, hs, vk, fk, hs[n - 1]) {
                Err(e) => Err(e),
                Ok(x) => Ok(s.push(x)),
            },
        }
    }
}

/// `r` is the compact form of `m`, whose half-edges, vertices and faces in
/// slot order are `hk`, `vk` and `fk`.
pub open spec fn from_halfedge_is(r: Result<CompactMesh<false>, TraversalError>, m: MeshView, hk: Seq<u64>, vk: Seq<u64>, fk: Seq<u64>) -> bool {
    let hs = face_keys(m, hk);
    let (es, ne) = edge_assign(m, hs, hs.len() as int);
    match entries(m, hs, vk, fk, hs.len() as int) {
        Err(e) => r == Err::<CompactMesh<false>, TraversalError>(e),
        Ok(xs) => r matches Ok(cm) && {
            &&& cm.counts == MeshCounts {
                num_vertices: vk.len() as usize,
                num_halfedges: hs.len() as usize,
                num_edges: ne as usize,
                num_faces: fk.len() as usize,
            }
            &&& cm.twin@.len() == hs.len() && cm.next@.len() == hs.len() && cm.prev@.len() == hs.len()
            &&& cm.vert@.len() == hs.len() && cm.face@.len() == hs.len() && cm.edge@.len() == hs.len()
            &&& forall|i: int| #![trigger xs[i]] 0 <= i < hs.len() ==> {
                &&& cm.twin@[i] == xs[i].0
                &&& cm.next@[i] == xs[i].1
                &&& cm.prev@[i] == xs[i].2
                &&& cm.vert@[i] == xs[i].3
                &&& cm.face@[i] == xs[i].4
                &&& cm.edge@[i] == es[i]
            }
        },
    }
}

/// The face half-edges of `m` can be numbered without a missing index:
/// each has a twin, its `next`, when set, is on a face too, and its `next`
/// walk ends.
pub open spec fn faces_convertible(m: MeshView) -> bool {
    forall|k: u64| #[trigger] m.halfedges.dom().contains(k) && m.halfedges[k].face is Some ==> {
        &&& m.halfedges[k].twin is Some
        &&& (m.halfedges[k].next matches Some(n) ==> m.halfedges[n.0].face is Some)
        &&& walk_terminates(m, WalkKind::Next, k)
    }
}

/// `s` lists distinct keys.
pub open spec fn distinct_keys(s: Seq<u64>) -> bool {
    forall|i: int, j: int| 0 <= i < j < s.len() ==> s[i] != s[j]
}

proof fn lemma_pos_in(s: Seq<u64>, i: int)
    requires
        distinct_keys(s),
        0 <= i < s.len(),
    ensures
        pos_in(s, s[i]) == i,
{
    let p = pos_in(s, s[i]);
    assert(0 <= p < s.len() && s[p] == s[i]);
    if p != i {
        if p < i {
            assert(s[p] != s[i]);
        } else {
            assert(s[i] != s[p]);
        }
    }
}

/// Keys in slot order are distinct.
proof fn lemma_slot_distinct(s: Seq<u64>)
    requires
        forall|i: int, j: int| 0 <= i < j < s.len() ==> key_slot(#[trigger] s[i]) < key_slot(#[trigger] s[j]),
    ensures
        distinct_keys(s),
{
    assert forall|i: int, j: int| 0 <= i < j < s.len() implies s[i] != s[j] by {
        assert(key_slot(s[i]) < key_slot(s[j]));
    }
}

/// A map from each key of `s` to its position.
fn index_map(s: &Vec<u64>) -> (r: HashMap<u64, u32>)
    requires
        distinct_keys(s@),
        s@.len() <= 0xffff_ffff,
    ensures
        forall|i: int| 0 <= i < s@.len() ==> r@.contains_key(#[trigger] s@[i]) && r@[s@[i]] == i,
        forall|k: u64| #[trigger] r@.contains_key(k) ==> s@.contains(k),
{
    let mut m: HashMap<u64, u32> = HashMap::new();
    let mut i: usize = 0;
    while i < s.len()
        invariant
            i <= s@.len(),
            s@.len() <= 0xffff_ffff,
            distinct_keys(s@),
            forall|j: int| 0 <= j < i ==> m@.contains_key(#[trigger] s@[j]) && m@[s@[j]] == j,
            forall|k: u64| #[trigger] m@.contains_key(k) ==> s@.take(i as int).contains(k),
        decreases s@.len() - i,
    {
        let ghost m0 = m@;
        m.insert(s[i], i as u32);
        proof {
            assert forall|j: int| 0 <= j < i + 1 implies m@.contains_key(#[trigger] s@[j]) && m@[s@[j]] == j by {
                if j < i {
                    assert(s@[j] != s@[i as int]);
                }
            }
            assert forall|k: u64| #[trigger] m@.contains_key(k) implies s@.take(i + 1).contains(k) by {
                if k == s@[i as int] {
                    assert(s@.take(i + 1)[i as int] == k);
                } else {
                    assert(m0.contains_key(k));
                    let j = choose|j: int| 0 <= j < s@.take(i as int).len() && s@.take(i as int)[j] == k;
                    assert(s@.take(i + 1)[j] == k);
                }
            }
        }
        i += 1;
    }
    proof {
        assert(s@.take(s@.len() as int) =~= s@);
    }
    m
}

/// `s` is in increasing slot order.
pub open spec fn slot_increasing(s: Seq<u64>) -> bool {
    forall|i: int, j: int| 0 <= i < j < s.len() ==> key_slot(#[trigger] s[i]) < key_slot(#[trigger] s[j])
}

/// Each face key is a key of `hk` on a face.
proof fn lemma_face_keys_from(m: MeshView, hk: Seq<u64>)
    ensures
        forall|j: int| 0 <= j < face_keys(m, hk).len() ==> hk.contains(#[trigger] face_keys(m, hk)[j]) && m.halfedges[face_keys(m, hk)[j]].face is Some,
        forall|k: u64| hk.contains(k) && m.halfedges[k].face is Some ==> face_keys(m, hk).contains(k),
    decreases hk.len(),
{
    if hk.len() > 0 {
        lemma_face_keys_from(m, hk.drop_last());
        let s = face_keys(m, hk.drop_last());
        let fs = face_keys(m, hk);
        assert(fs == if m.halfedges[hk.last()].face is Some { s.push(hk.last()) } else { s });
        assert forall|j: int| 0 <= j < fs.len() implies hk.contains(#[trigger] fs[j]) && m.halfedges[fs[j]].face is Some by {
            if j < s.len() {
                assert(fs[j] == s[j]);
                let t = choose|t: int| 0 <= t < hk.drop_last().len() && hk.drop_last()[t] == s[j];
                assert(hk[t] == s[j]);
            } else {
                assert(fs[j] == hk.last());
                assert(hk[hk.len() - 1] == hk.last());
            }
        }
        assert forall|k: u64| hk.contains(k) && m.halfedges[k].face is Some implies fs.contains(k) by {
            let t = choose|t: int| 0 <= t < hk.len() && hk[t] == k;
            if t < hk.len() - 1 {
                assert(hk.drop_last()[t] == k);
                assert(hk.drop_last().contains(k));
                assert(s.contains(k));
                let u = choose|u: int| 0 <= u < s.len() && s[u] == k;
                assert(fs[u] == k);
            } else {
                assert(fs[fs.len() - 1] == k);
            }
        }
    }
}

/// The face half-edges among the half-edge keys `hk`, in order.
fn face_halfedge_keys(conn: &crate::halfedge::MeshConnectivity, hk: &Vec<u64>) -> (hs: Vec<u64>)
    requires
        conn.well_formed(),
        forall|i: int| 0 <= i < hk@.len() ==> conn@.halfedges.dom().contains(#[trigger] hk@[i]),
        slot_increasing(hk@),
    ensures
        hs@ == face_keys(conn@, hk@),
        slot_increasing(hs@),
{
    let ghost m = conn@;
    let mut hs: Vec<u64> = Vec::new();
    let mut i: usize = 0;
    while i < hk.len()
        invariant
            m == conn@,
            conn.well_formed(),
            i <= hk@.len(),
            forall|t: int| 0 <= t < hk@.len() ==> m.halfedges.dom().contains(#[trigger] hk@[t]),
            slot_increasing(hk@),
            hs@ == face_keys(m, hk@.take(i as int)),
            slot_increasing(hs@),
        decreases hk@.len() - i,
    {
        let k = hk[i];
        proof {
            assert(hk@.take(i + 1).drop_last() =~= hk@.take(i as int));
            assert(hk@.take(i + 1).last() == k);
        }
        if conn.halfedge(HalfEdgeId(k)).face.is_some() {
            proof {
                lemma_face_keys_from(m, hk@.take(i as int));
                assert forall|j: int| 0 <= j < hs@.len() implies key_slot(#[trigger] hs@[j]) < key_slot(k) by {
                    assert(hk@.take(i as int).contains(hs@[j]));
                    let t = choose|t: int| 0 <= t < hk@.take(i as int).len() && hk@.take(i as int)[t] == hs@[j];
                    assert(hk@[t] == hs@[j]);
                }
            }
            hs.push(k);
            proof {
                assert forall|a: int, b: int| 0 <= a < b < hs@.len() implies key_slot(#[trigger] hs@[a]) < key_slot(#[trigger] hs@[b]) by {
                    if b < hs@.len() - 1 {
                        assert(hs@.drop_last()[a] == hs@[a] && hs@.drop_last()[b] == hs@[b]);
                    } else {
                        assert(hs@.drop_last()[a] == hs@[a]);
                    }
                }
            }
        }
        i += 1;
    }
    proof {
        assert(hk@.take(hk@.len() as int) =~= hk@);
    }
    hs
}

/// The edge numbers of the face half-edges `hs`, and how many there are.
fn assign_edges(conn: &crate::halfedge::MeshConnectivity, hs: &Vec<u64>, h_idx: &HashMap<u64, u32>) -> (r: (Vec<u32>, u32))
    requires
        conn.well_formed(),
        faces_convertible(conn@),
        distinct_keys(hs@),
        hs@.len() <= 0xffff_ffff,
        forall|i: int| 0 <= i < hs@.len() ==> conn@.halfedges.dom().contains(#[trigger] hs@[i]) && conn@.halfedges[hs@[i]].face is Some,
        forall|i: int| 0 <= i < hs@.len() ==> h_idx@.contains_key(#[trigger] hs@[i]) && h_idx@[hs@[i]] == i,
        forall|k: u64| #[trigger] h_idx@.contains_key(k) ==> hs@.contains(k),
    ensures
        r.0@ == edge_assign(conn@, hs@, hs@.len() as int).0,
        r.1 == edge_assign(conn@, hs@, hs@.len() as int).1,
        r.0@.len() == hs@.len(),
{
    let ghost m = conn@;
    let mut es: Vec<u32> = Vec::new();
    let mut c: u32 = 0;
    let mut i: usize = 0;
    while i < hs.len()
        invariant
            m == conn@,
            conn.well_formed(),
            faces_convertible(m),
            distinct_keys(hs@),
            hs@.len() <= 0xffff_ffff,
            forall|t: int| 0 <= t < hs@.len() ==> m.halfedges.dom().contains(#[trigger] hs@[t]) && m.halfedges[hs@[t]].face is Some,
            forall|t: int| 0 <= t < hs@.len() ==> h_idx@.contains_key(#[trigger] hs@[t]) && h_idx@[hs@[t]] == t,
            forall|k: u64| #[trigger] h_idx@.contains_key(k) ==> hs@.contains(k),
            i <= hs@.len(),
            es@ == edge_assign(m, hs@, i as int).0,
            c == edge_assign(m, hs@, i as int).1,
            es@.len() == i,
            c <= i,
        decreases hs@.len() - i,
    {
        let h = hs[i];
        assert(m.halfedges.dom().contains(h) && m.halfedges[h].face is Some);
        let t = conn.halfedge(HalfEdgeId(h)).twin.unwrap().0;
        let ghost seen = hs@.take(i as int).contains(t);
        match h_idx.get(&t) {
            Some(j) => {
                let j = *j;
                proof {
                    let p = choose|p: int| 0 <= p < hs@.len() && hs@[p] == t;
                    assert(h_idx@[hs@[p]] == p);
                    lemma_pos_in(hs@, p);
                    if p < i {
                        assert(hs@.take(i as int)[p] == t);
                    } else {
                        if seen {
                            let q = choose|q: int| 0 <= q < hs@.take(i as int).len() && hs@.take(i as int)[q] == t;
                            assert(hs@[q] == t);
                            lemma_pos_in(hs@, q);
                        }
                    }
                }
                if (j as usize) < i {
                    let e = es[j as usize];
                    es.push(e);
                } else {
                    es.push(c);
                    c = c + 1;
                }
            },
            None => {
                proof {
                    if seen {
                        let q = choose|q: int| 0 <= q < hs@.take(i as int).len() && hs@.take(i as int)[q] == t;
                        assert(hs@[q] == t);
                    }
                }
                es.push(c);
                c = c + 1;
            },
        }
        i += 1;
    }
    (es, c)
}

/// A `next` walk from a face half-edge stays on face half-edges.
proof fn lemma_walk_faces(m: MeshView, h: u64, j: nat)
    requires
        m.links_valid(),
        faces_convertible(m),
        m.halfedges.dom().contains(h),
        m.halfedges[h].face is Some,
    ensures
        walk(m, WalkKind::Next, h, j) matches Ok(x) ==> m.halfedges.dom().contains(x) && m.halfedges[x].face is Some,
    decreases j,
{
    if j > 0 {
        lemma_walk_faces(m, h, (j - 1) as nat);
        if let Ok(x) = walk(m, WalkKind::Next, h, (j - 1) as nat) {
            assert(m.halfedge_links_ok(m.halfedges[x]));
        }
    }
}

/// Once an entry fails, the whole conversion fails with its error.
proof fn lemma_entries_err(m: MeshView, hs: Seq<u64>, vk: Seq<u64>, fk: Seq<u64>, i: int, n: int, e: TraversalError)
    requires
        0 <= i < n,
        entries(m, hs, vk, fk, i) is Ok,
        entry_of(m, hs, vk, fk, hs[i]) == Err::<CompactEntry, TraversalError>(e),
    ensures
        entries(m, hs, vk, fk, n) == Err::<Seq<CompactEntry>, TraversalError>(e),
    decreases n,
{
    if n > i + 1 {
        lemma_entries_err(m, hs, vk, fk, i, n - 1, e);
    }
}

/// Walking `a` steps then `b` steps is walking `a + b` steps.
proof fn lemma_walk_compose(m: MeshView, x: u64, a: nat, b: nat)
    ensures
        walk(m, WalkKind::Next, x, a + b) == match walk(m, WalkKind::Next, x, a) {
            Ok(y) => walk(m, WalkKind::Next, y, b),
            Err(e) => Err(e),
        },
    decreases b,
{
    if b > 0 {
        lemma_walk_compose(m, x, a, (b - 1) as nat);
        assert(walk(m, WalkKind::Next, x, a + b) == match walk(m, WalkKind::Next, x, (a + b - 1) as nat) {
            Ok(z) => walk_step(m, WalkKind::Next, z),
            Err(e) => Err(e),
        });
        assert((a + b - 1) as nat == a + (b - 1) as nat);
    }
}

/// The walk comes back first after exactly one number of steps.
proof fn lemma_returns_at_unique(m: MeshView, x: u64, n1: nat, n2: nat)
    requires
        walk_returns_at(m, WalkKind::Next, x, n1),
        walk_returns_at(m, WalkKind::Next, x, n2),
    ensures
        n1 == n2,
{
    if n1 < n2 {
        let i: int = n1 as int;
        assert(walk(m, WalkKind::Next, x, i as nat) != Ok::<u64, TraversalError>(x));
    } else if n2 < n1 {
        let i: int = n2 as int;
        assert(walk(m, WalkKind::Next, x, i as nat) != Ok::<u64, TraversalError>(x));
    }
}

/// The loop of `next(x)` is the loop of `x` turned by one: its last
/// half-edge is `x`, and `x`'s last half-edge leads to `x`.
proof fn lemma_loop_turn(m: MeshView, x: u64, nx: u64)
    requires
        walk_outcome(m, WalkKind::Next, x) is Ok,
        walk_step(m, WalkKind::Next, x) == Ok::<u64, TraversalError>(nx),
    ensures
        walk_outcome(m, WalkKind::Next, nx) is Ok,
        cycle_seq(m, WalkKind::Next, nx).last() == HalfEdgeId(x),
        walk_step(m, WalkKind::Next, cycle_seq(m, WalkKind::Next, x).last().0) == Ok::<u64, TraversalError>(x),
        cycle_seq(m, WalkKind::Next, x).len() >= 1,
{
    assert(exists|n: nat| walk_returns_at(m, WalkKind::Next, x, n));
    let l = cycle_len(m, WalkKind::Next, x);
    assert(walk_returns_at(m, WalkKind::Next, x, l));
    assert(walk(m, WalkKind::Next, x, 0) == Ok::<u64, TraversalError>(x));
    assert(walk(m, WalkKind::Next, x, 1) == Ok::<u64, TraversalError>(nx));
    // walk(nx, j) == walk(x, j + 1)
    assert forall|j: nat| #[trigger] walk(m, WalkKind::Next, nx, j) == walk(m, WalkKind::Next, x, 1 + j) by {
        lemma_walk_compose(m, x, 1, j);
    }
    // nx comes back after l steps
    lemma_walk_compose(m, x, l, 1);
    assert(walk(m, WalkKind::Next, nx, l) == walk(m, WalkKind::Next, x, 1 + l));
    assert(walk(m, WalkKind::Next, nx, l) == Ok::<u64, TraversalError>(nx));
    assert forall|j: int| 1 <= j < l implies #[trigger] walk(m, WalkKind::Next, nx, j as nat) != Ok::<u64, TraversalError>(nx) by {
        if walk(m, WalkKind::Next, nx, j as nat) == Ok::<u64, TraversalError>(nx) {
            let jn: nat = j as nat;
            assert(walk(m, WalkKind::Next, x, 1 + jn) == Ok::<u64, TraversalError>(nx));
            // walk(x, j + l) computed two ways
            lemma_walk_compose(m, x, 1 + jn, (l - 1) as nat);
            lemma_walk_compose(m, x, 1, (l - 1) as nat);
            assert(1 + jn + (l - 1) as nat == jn + l);
            assert(1 + (l - 1) as nat == l);
            lemma_walk_compose(m, x, l, jn);
            assert(l + jn == jn + l);
            assert(walk(m, WalkKind::Next, x, jn) == Ok::<u64, TraversalError>(x));
            assert(walk(m, WalkKind::Next, x, j as nat) != Ok::<u64, TraversalError>(x));
        }
    }
    assert(walk_returns_at(m, WalkKind::Next, nx, l));
    assert(exists|n: nat| walk_returns_at(m, WalkKind::Next, nx, n));
    let l2 = cycle_len(m, WalkKind::Next, nx);
    assert(walk_returns_at(m, WalkKind::Next, nx, l2));
    lemma_returns_at_unique(m, nx, l, l2);
    let lm1 = (l - 1) as nat;
    assert(walk(m, WalkKind::Next, nx, lm1) == walk(m, WalkKind::Next, x, 1 + lm1));
    assert(1 + lm1 == l);
    assert(cycle_seq(m, WalkKind::Next, nx)[l - 1] == HalfEdgeId(walk(m, WalkKind::Next, nx, lm1)->Ok_0));
    // the last of x's loop leads to x
    assert(walk(m, WalkKind::Next, x, lm1) is Ok) by {
        if walk(m, WalkKind::Next, x, lm1) is Err {
            lemma_walk_error_sticks(m, WalkKind::Next, x, lm1, l);
        }
    }
    assert(cycle_seq(m, WalkKind::Next, x)[l - 1] == HalfEdgeId(walk(m, WalkKind::Next, x, lm1)->Ok_0));
    assert(walk(m, WalkKind::Next, x, l) == match walk(m, WalkKind::Next, x, lm1) {
        Ok(z) => walk_step(m, WalkKind::Next, z),
        Err(e) => Err(e),
    });
}

/// The conversion's entries, one per face half-edge, in order.
proof fn lemma_entries_at(m: MeshView, hs: Seq<u64>, vk: Seq<u64>, fk: Seq<u64>, n: int)
    requires
        0 <= n,
        entries(m, hs, vk, fk, n) is Ok,
    ensures
        entries(m, hs, vk, fk, n)->Ok_0.len() == n,
        forall|i: int| 0 <= i < n ==> entry_of(m, hs, vk, fk, #[trigger] hs[i]) == Ok::<CompactEntry, TraversalError>(entries(m, hs, vk, fk, n)->Ok_0[i]),
    decreases n,
{
    if n > 0 {
        lemma_entries_at(m, hs, vk, fk, n - 1);
        let xs0 = entries(m, hs, vk, fk, n - 1)->Ok_0;
        let xs = entries(m, hs, vk, fk, n)->Ok_0;
        assert forall|i: int| 0 <= i < n implies entry_of(m, hs, vk, fk, #[trigger] hs[i]) == Ok::<CompactEntry, TraversalError>(xs[i]) by {
            if i < n - 1 {
                assert(xs[i] == xs0[i]);
            }
        }
    }
}

/// Edge numbers are given in order, each below the count, and a number,
/// once given, stays.
proof fn lemma_edge_assign(m: MeshView, hs: Seq<u64>, n: int)
    requires
        0 <= n <= hs.len(),
        distinct_keys(hs),
    ensures
        edge_assign(m, hs, n).0.len() == n,
        edge_assign(m, hs, n).1 <= n,
        forall|i: int| 0 <= i < n ==> #[trigger] edge_assign(m, hs, n).0[i] < edge_assign(m, hs, n).1,
        forall|k: int, i: int| 0 <= i < k <= n ==> #[trigger] edge_assign(m, hs, k).0[i] == #[trigger] edge_assign(m, hs, n).0[i],
    decreases n,
{
    if n > 0 {
        lemma_edge_assign(m, hs, n - 1);
        let (es0, c0) = edge_assign(m, hs, n - 1);
        let (es, c) = edge_assign(m, hs, n);
        let t = m.halfedges[hs[n - 1]].twin->Some_0.0;
        if hs.take(n - 1).contains(t) {
            let p = pos_in(hs, t);
            let q = choose|q: int| 0 <= q < hs.take(n - 1).len() && #[trigger] hs.take(n - 1)[q] == t;
            assert(hs[q] == t);
            lemma_pos_in(hs, q);
            assert(p == q);
        }
        assert forall|i: int| 0 <= i < n implies #[trigger] edge_assign(m, hs, n).0[i] < edge_assign(m, hs, n).1 by {
            if i < n - 1 {
                assert(es[i] == es0[i]);
            }
        }
        assert forall|k: int, i: int| 0 <= i < k <= n implies #[trigger] edge_assign(m, hs, k).0[i] == #[trigger] edge_assign(m, hs, n).0[i] by {
            if k < n {
                assert(edge_assign(m, hs, k).0[i] == es0[i]);
            }
            assert(es[i] == es0[i] || i == n - 1);
        }
    }
}

/// Face keys of keys in slot order are in slot order.
proof fn lemma_face_keys_increasing(m: MeshView, hk: Seq<u64>)
    requires
        slot_increasing(hk),
    ensures
        slot_increasing(face_keys(m, hk)),
    decreases hk.len(),
{
    if hk.len() > 0 {
        let hd = hk.drop_last();
        assert(slot_increasing(hd)) by {
            assert forall|i: int, j: int| 0 <= i < j < hd.len() implies key_slot(#[trigger] hd[i]) < key_slot(#[trigger] hd[j]) by {
                assert(hd[i] == hk[i] && hd[j] == hk[j]);
            }
        }
        lemma_face_keys_increasing(m, hd);
        lemma_face_keys_from(m, hd);
        let s = face_keys(m, hd);
        let fs = face_keys(m, hk);
        if m.halfedges[hk.last()].face is Some {
            assert forall|i: int, j: int| 0 <= i < j < fs.len() implies key_slot(#[trigger] fs[i]) < key_slot(#[trigger] fs[j]) by {
                if j < s.len() {
                    assert(fs[i] == s[i] && fs[j] == s[j]);
                } else {
                    assert(fs[i] == s[i]);
                    assert(hd.contains(s[i]));
                    let t = choose|t: int| 0 <= t < hd.len() && hd[t] == s[i];
                    assert(hk[t] == s[i]);
                    assert(fs[j] == hk[hk.len() - 1]);
                }
            }
        }
    }
}

impl<const Subdivided: bool> CompactMesh<Subdivided> {
    /// The compact form of the connectivity of `mesh`: its face half-edges,
    /// vertices and faces numbered in slot order, and an edge number for
    /// each pair of twins. Fails at the first face half-edge, in slot order,
    /// with no `next`, whose `next` loop fails, or with no vertex.
    pub fn from_halfedge(mesh: &HalfEdgeMesh) -> (r: Result<CompactMesh<false>, TraversalError>)
        requires
            mesh.well_formed(),
            mesh.connectivity@.links_valid(),
            faces_convertible(mesh.connectivity@),
        ensures
            forall|hk: Seq<u64>, vk: Seq<u64>, fk: Seq<u64>|
                #![trigger in_slot_order(mesh.connectivity@.halfedges.dom(), hk), in_slot_order(mesh.connectivity@.vertices.dom(), vk), in_slot_order(mesh.connectivity@.faces.dom(), fk)]
                in_slot_order(mesh.connectivity@.halfedges.dom(), hk) && in_slot_order(mesh.connectivity@.vertices.dom(), vk)
                    && in_slot_order(mesh.connectivity@.faces.dom(), fk) ==> from_halfedge_is(r, mesh.connectivity@, hk, vk, fk),
    {
        let conn = mesh.read_connectivity();
        let ghost m = conn@;
        let (_, hk) = mesh.halfedge_slot_keys();
        let (_, vk) = mesh.vertex_slot_keys();
        let (_, fk) = mesh.face_slot_keys();
        proof {
            lemma_slot_distinct(vk@);
            lemma_slot_distinct(fk@);
            assert forall|i: int| 0 <= i < hk@.len() implies m.halfedges.dom().contains(#[trigger] hk@[i]) by {}
            if vk@.len() > 0 {
                crate::mesh::lemma_slot_at_least(vk@, vk@.len() - 1);
                assert(m.vertices.dom().contains(vk@[vk@.len() - 1]));
            }
            if fk@.len() > 0 {
                crate::mesh::lemma_slot_at_least(fk@, fk@.len() - 1);
                assert(m.faces.dom().contains(fk@[fk@.len() - 1]));
            }
        }
        let hs = face_halfedge_keys(conn, &hk);
        proof {
            lemma_slot_distinct(hs@);
            lemma_face_keys_from(m, hk@);
            if hs@.len() > 0 {
                crate::mesh::lemma_slot_at_least(hs@, hs@.len() - 1);
                assert(hk@.contains(hs@[hs@.len() - 1]));
            }
        }
        let h_idx = index_map(&hs);
        let v_idx = index_map(&vk);
        let f_idx = index_map(&fk);
        let (edge, num_edges) = assign_edges(conn, &hs, &h_idx);
        let ghost hsv = hs@;
        proof {
            assert forall|hk2: Seq<u64>| #[trigger] in_slot_order(m.halfedges.dom(), hk2) implies hk2 == hk@ by {
                crate::mesh::lemma_slot_order_unique(m.halfedges.dom(), hk2, hk@);
            }
            assert forall|vk2: Seq<u64>| #[trigger] in_slot_order(m.vertices.dom(), vk2) implies vk2 == vk@ by {
                crate::mesh::lemma_slot_order_unique(m.vertices.dom(), vk2, vk@);
            }
            assert forall|fk2: Seq<u64>| #[trigger] in_slot_order(m.faces.dom(), fk2) implies fk2 == fk@ by {
                crate::mesh::lemma_slot_order_unique(m.faces.dom(), fk2, fk@);
            }
        }
        let mut twin: Vec<Option<u32>> = Vec::new();
        let mut next: Vec<u32> = Vec::new();
        let mut prev: Vec<u32> = Vec::new();
        let mut vert: Vec<u32> = Vec::new();
        let mut face: Vec<u32> = Vec::new();
        let mut i: usize = 0;
        while i < hs.len()
            invariant
                m == conn@,
                m == mesh.connectivity@,
                conn.well_formed(),
                m.links_valid(),
                faces_convertible(m),
                hsv == hs@,
                hsv == face_keys(m, hk@),
                distinct_keys(hsv),
                distinct_keys(vk@),
                distinct_keys(fk@),
                in_slot_order(m.vertices.dom(), vk@),
                in_slot_order(m.faces.dom(), fk@),
                in_slot_order(m.halfedges.dom(), hk@),
                forall|hk2: Seq<u64>| #[trigger] in_slot_order(m.halfedges.dom(), hk2) ==> hk2 == hk@,
                forall|vk2: Seq<u64>| #[trigger] in_slot_order(m.vertices.dom(), vk2) ==> vk2 == vk@,
                forall|fk2: Seq<u64>| #[trigger] in_slot_order(m.faces.dom(), fk2) ==> fk2 == fk@,
                edge@ == edge_assign(m, hsv, hsv.len() as int).0,
                num_edges == edge_assign(m, hsv, hsv.len() as int).1,
                forall|j: int| 0 <= j < hsv.len() ==> hk@.contains(#[trigger] hsv[j]) && m.halfedges[hsv[j]].face is Some,
                forall|k: u64| hk@.contains(k) && m.halfedges[k].face is Some ==> hsv.contains(k),
                forall|j: int| 0 <= j < hsv.len() ==> h_idx@.contains_key(#[trigger] hsv[j]) && h_idx@[hsv[j]] == j,
                forall|j: int| 0 <= j < vk@.len() ==> v_idx@.contains_key(#[trigger] vk@[j]) && v_idx@[vk@[j]] == j,
                forall|j: int| 0 <= j < fk@.len() ==> f_idx@.contains_key(#[trigger] fk@[j]) && f_idx@[fk@[j]] == j,
                i <= hsv.len(),
                twin@.len() == i && next@.len() == i && prev@.len() == i && vert@.len() == i && face@.len() == i,
                entries(m, hsv, vk@, fk@, i as int) matches Ok(xs) && xs.len() == i && forall|j: int| #![trigger xs[j]] 0 <= j < i ==> {
                    &&& twin@[j] == xs[j].0
                    &&& next@[j] == xs[j].1
                    &&& prev@[j] == xs[j].2
                    &&& vert@[j] == xs[j].3
                    &&& face@[j] == xs[j].4
                },
            decreases hsv.len() - i,
        {
            let h = hs[i];
            let ghost xs0 = entries(m, hsv, vk@, fk@, i as int)->Ok_0;
            assert(hk@.contains(h) && m.halfedges[h].face is Some);
            assert(m.halfedges.dom().contains(h));
            assert(m.halfedge_links_ok(m.halfedges[h]));
            let he = conn.halfedge(HalfEdgeId(h));
            let t = he.twin.unwrap();
            let tw: Option<u32> = if conn.halfedge(t).face.is_some() {
                proof {
                    assert(hk@.contains(t.0));
                    assert(hsv.contains(t.0));
                    let p = choose|p: int| 0 <= p < hsv.len() && hsv[p] == t.0;
                    lemma_pos_in(hsv, p);
                    assert(h_idx@[hsv[p]] == p);
                }
                Some(*h_idx.get(&t.0).unwrap())
            } else {
                None
            };
            let nx = match he.next {
                Some(n) => n,
                None => {
                    proof {
                        lemma_entries_err(m, hsv, vk@, fk@, i as int, hsv.len() as int, TraversalError::HalfEdgeHasNoNext(HalfEdgeId(h)));
                    }
                    return Err(TraversalError::HalfEdgeHasNoNext(HalfEdgeId(h)));
                },
            };
            proof {
                assert(hk@.contains(nx.0));
                assert(hsv.contains(nx.0));
                let p = choose|p: int| 0 <= p < hsv.len() && hsv[p] == nx.0;
                lemma_pos_in(hsv, p);
                assert(h_idx@[hsv[p]] == p);
            }
            let ni = *h_idx.get(&nx.0).unwrap();
            let cyc = match conn.walk_cycle(WalkKind::Next, HalfEdgeId(h)) {
                Ok(c) => c,
                Err(e) => {
                    proof {
                        lemma_entries_err(m, hsv, vk@, fk@, i as int, hsv.len() as int, e);
                    }
                    return Err(e);
                },
            };
            let last = cyc[cyc.len() - 1];
            proof {
                let ln = (cyc@.len() - 1) as nat;
                assert(walk(m, WalkKind::Next, h, ln) == Ok::<u64, TraversalError>(cyc@[cyc@.len() - 1].0));
                lemma_walk_faces(m, h, ln);
                assert(hk@.contains(last.0));
                assert(hsv.contains(last.0));
                let p = choose|p: int| 0 <= p < hsv.len() && hsv[p] == last.0;
                lemma_pos_in(hsv, p);
                assert(h_idx@[hsv[p]] == p);
            }
            let pi = *h_idx.get(&last.0).unwrap();
            let v = match he.vertex {
                Some(v) => v,
                None => {
                    proof {
                        lemma_entries_err(m, hsv, vk@, fk@, i as int, hsv.len() as int, TraversalError::HalfEdgeHasNoVertex(HalfEdgeId(h)));
                    }
                    return Err(TraversalError::HalfEdgeHasNoVertex(HalfEdgeId(h)));
                },
            };
            let f = he.face.unwrap();
            proof {
                assert(vk@.contains(v.0));
                let p = choose|p: int| 0 <= p < vk@.len() && vk@[p] == v.0;
                lemma_pos_in(vk@, p);
                assert(v_idx@[vk@[p]] == p);
                assert(fk@.contains(f.0));
                let q = choose|q: int| 0 <= q < fk@.len() && fk@[q] == f.0;
                lemma_pos_in(fk@, q);
                assert(f_idx@[fk@[q]] == q);
            }
            let vi = *v_idx.get(&v.0).unwrap();
            let fi = *f_idx.get(&f.0).unwrap();
            twin.push(tw);
            next.push(ni);
            prev.push(pi);
            vert.push(vi);
            face.push(fi);
            proof {
                assert(entry_of(m, hsv, vk@, fk@, h) == Ok::<CompactEntry, TraversalError>((tw, ni, pi, vi, fi)));
                let xs = xs0.push((tw, ni, pi, vi, fi));
                assert(entries(m, hsv, vk@, fk@, i + 1) == Ok::<Seq<CompactEntry>, TraversalError>(xs));
            }
            i += 1;
        }
        let counts = MeshCounts { num_vertices: vk.len(), num_halfedges: hs.len(), num_edges: num_edges as usize, num_faces: fk.len() };
        let cm = CompactMesh::<false> { twin, next, prev, vert, edge, face, counts };
        proof {
            let xs = entries(m, hsv, vk@, fk@, hsv.len() as int)->Ok_0;
            assert(edge@.len() == hsv.len());
            assert forall|j: int| #![trigger xs[j]] 0 <= j < hsv.len() implies {
                &&& cm.twin@[j] == xs[j].0
                &&& cm.next@[j] == xs[j].1
                &&& cm.prev@[j] == xs[j].2
                &&& cm.vert@[j] == xs[j].3
                &&& cm.face@[j] == xs[j].4
                &&& cm.edge@[j] == edge_assign(m, hsv, hsv.len() as int).0[j]
            } by {}
            assert(from_halfedge_is(Ok::<CompactMesh<false>, TraversalError>(cm), m, hk@, vk@, fk@));
        }
        Ok(cm)
    }
}

} // verus!
