//! The half-edge table of a planar subdivision, and the tracing of its
//! faces.

use vstd::prelude::*;
use std::collections::HashSet;

verus! {

/// A face, as the vertices on its boundary in walking order.
pub type Face = Vec<usize>;

/// One direction of an edge. `usize::MAX` in `twin`, `next` or `face_id`
/// means that the field is not assigned yet.
#[derive(Debug, PartialEq, Eq, Clone, Copy, Hash)]
pub struct HalfEdge {
    pub origin_vert: usize,
    pub terminus_vert: usize,
    pub twin: usize,
    pub next: usize,
    pub face_id: usize,
}

/// A half-edge table with the faces that were kept of it.
pub struct DCEL {
    half_edges: Vec<HalfEdge>,
    faces: Vec<Face>,
}

impl HalfEdge {
    /// A half-edge from `origin` to `terminus` with nothing else assigned.
    pub fn new(origin: usize, terminus: usize) -> (edge: Self)
        ensures
            edge == (HalfEdge {
                origin_vert: origin,
                terminus_vert: terminus,
                twin: usize::MAX,
                next: usize::MAX,
                face_id: usize::MAX,
            }),
    {
        Self {
            origin_vert: origin,
            terminus_vert: terminus,
            twin: usize::MAX,
            next: usize::MAX,
            face_id: usize::MAX,
        }
    }

    /// The half-edge belongs to no face yet.
    pub open spec fn pending(self) -> bool {
        self.face_id == usize::MAX
    }

    /// `other` is this half-edge, but for the face it belongs to.
    pub open spec fn same_edge(self, other: HalfEdge) -> bool {
        other == (HalfEdge { face_id: other.face_id, ..self })
    }
}

/// The two ends of a half-edge as one number, different for different ends.
pub open spec fn ends_key(origin: usize, terminus: usize) -> int {
    origin * 0x1_0000_0000_0000_0000 + terminus
}

/// The table `table` holds a half-edge from `origin` to `terminus`.
pub open spec fn has_ends(table: Seq<HalfEdge>, origin: usize, terminus: usize) -> bool {
    exists|a: int|
        0 <= a < table.len() && (#[trigger] table[a]).origin_vert == origin && table[a].terminus_vert
            == terminus
}

/// The table of half-edges made from the directed edges `found`, taken one
/// after the other: an edge whose ends the table holds already is passed
/// over; any other enters the table followed by its reverse, each with the
/// other as its twin.
pub open spec fn twinned(found: Seq<HalfEdge>) -> Seq<HalfEdge>
    decreases found.len(),
{
    if found.len() == 0 {
        Seq::empty()
    } else {
        let table = twinned(found.drop_last());
        let e = found.last();
        if has_ends(table, e.origin_vert, e.terminus_vert) {
            table
        } else {
            table.push(HalfEdge { twin: (table.len() + 1) as usize, ..e }).push(
                HalfEdge {
                    origin_vert: e.terminus_vert,
                    terminus_vert: e.origin_vert,
                    twin: table.len() as usize,
                    ..e
                },
            )
        }
    }
}

/// The table made from `found` is at most twice as long.
pub proof fn lemma_twinned_len(found: Seq<HalfEdge>)
    ensures
        twinned(found).len() <= 2 * found.len(),
    decreases found.len(),
{
    if found.len() > 0 {
        lemma_twinned_len(found.drop_last());
    }
}

/// The half-edge reached from `start` by following `next` for `k` steps.
pub open spec fn hop(edges: Seq<HalfEdge>, start: usize, k: nat) -> usize
    decreases k,
{
    if k == 0 {
        start
    } else {
        edges[hop(edges, start, (k - 1) as nat) as int].next
    }
}

/// The number of half-edges that belong to no face yet.
pub open spec fn count_pending(edges: Seq<HalfEdge>) -> nat
    decreases edges.len(),
{
    if edges.len() == 0 {
        0
    } else {
        count_pending(edges.drop_last()) + if edges.last().pending() {
            1nat
        } else {
            0nat
        }
    }
}

/// Every `next` field points into the table.
pub open spec fn linked(edges: Seq<HalfEdge>) -> bool {
    forall|i: int| 0 <= i < edges.len() ==> (#[trigger] edges[i]).next < edges.len()
}

/// `face` lists the origins of the half-edges of face `f`: the chain that
/// starts at `s` and follows `next` through half-edges that were pending,
/// each met once, up to one that belonged to a face already.
pub open spec fn chain_ok(
    before: Seq<HalfEdge>,
    after: Seq<HalfEdge>,
    face: Seq<usize>,
    s: usize,
    f: int,
) -> bool {
    &&& face.len() > 0
    &&& forall|k: nat|
        k < face.len() ==> {
            let e = #[trigger] hop(before, s, k);
            &&& e < before.len()
            &&& before[e as int].pending()
            &&& after[e as int].face_id == f
            &&& face[k as int] == before[e as int].origin_vert
        }
    &&& forall|k1: nat, k2: nat|
        k1 < k2 < face.len() ==> #[trigger] hop(before, s, k1) != #[trigger] hop(before, s, k2)
    &&& ({
        let e = hop(before, s, face.len());
        e < before.len() && (!before[e as int].pending() || after[e as int].face_id <= f)
    })
}

/// Half-edge `i` is on the chain of face `f`.
pub open spec fn listed(before: Seq<HalfEdge>, face: Seq<usize>, s: usize, i: int) -> bool {
    exists|k: nat| k < face.len() && #[trigger] hop(before, s, k) == i
}

/// `faces` are the faces traced in the table `before`, which left the table
/// `after`: a scan of the table by ascending index starts a face at every
/// half-edge that is still pending, at `starts[f]` for face `f`, and the
/// face takes the chain of pending half-edges from there. One empty face
/// closes the list.
pub open spec fn traced(
    before: Seq<HalfEdge>,
    after: Seq<HalfEdge>,
    faces: Seq<Seq<usize>>,
    starts: Seq<usize>,
) -> bool {
    &&& after.len() == before.len()
    &&& forall|i: int| 0 <= i < before.len() ==> (#[trigger] before[i]).same_edge(after[i])
    &&& forall|i: int| 0 <= i < before.len() && !(#[trigger] before[i]).pending() ==> after[i] == before[i]
    &&& faces.len() == starts.len() + 1
    &&& faces.last().len() == 0
    &&& forall|f: int| 0 <= f < starts.len() ==> chain_ok(before, after, #[trigger] faces[f], starts[f], f)
    &&& forall|i: int|
        0 <= i < before.len() && (#[trigger] before[i]).pending() ==> {
            let f = after[i].face_id as int;
            f < starts.len() && listed(before, faces[f], starts[f], i)
        }
    &&& forall|f1: int, f2: int|
        0 <= f1 < f2 < starts.len() ==> #[trigger] starts[f1] < #[trigger] starts[f2]
}

/// The faces as sequences of vertices.
pub open spec fn face_seqs(faces: Seq<Vec<usize>>) -> Seq<Seq<usize>> {
    Seq::new(faces.len(), |f: int| faces[f]@)
}

/// What holds while face `starts.len()` is traced from half-edge `i`: the
/// faces before it are complete, and this one holds the first `k`
/// half-edges of the chain from `i`, with `cur` the next one on the chain.
/// Between two faces, `k` is 0 and `cur` is `i`.
pub open spec fn tracing(
    before: Seq<HalfEdge>,
    now: Seq<HalfEdge>,
    faces: Seq<Seq<usize>>,
    starts: Seq<usize>,
    i: usize,
    cur: usize,
    k: nat,
) -> bool {
    let fid = starts.len() as int;
    &&& now.len() == before.len()
    &&& forall|j: int| 0 <= j < before.len() ==> (#[trigger] before[j]).same_edge(now[j])
    &&& forall|j: int| 0 <= j < before.len() && !(#[trigger] before[j]).pending() ==> now[j] == before[j]
    &&& faces.len() == starts.len() + 1
    &&& faces[fid].len() == k
    &&& starts.len() <= i
    &&& i < before.len()
    &&& cur == hop(before, i, k)
    &&& cur < before.len()
    &&& forall|f: int|
        0 <= f < starts.len() ==> chain_ok(before, now, #[trigger] faces[f], starts[f], f)
            && starts[f] < i
    &&& forall|q: nat|
        q < k ==> {
            let e = #[trigger] hop(before, i, q);
            &&& e < before.len()
            &&& before[e as int].pending()
            &&& now[e as int].face_id == fid
            &&& faces[fid][q as int] == before[e as int].origin_vert
        }
    &&& forall|q1: nat, q2: nat|
        q1 < q2 < k ==> #[trigger] hop(before, i, q1) != #[trigger] hop(before, i, q2)
    &&& forall|j: int|
        0 <= j < before.len() && (#[trigger] before[j]).pending() && !now[j].pending() ==> {
            let f = now[j].face_id as int;
            ||| f < fid && listed(before, faces[f], starts[f], j)
            ||| f == fid && listed(before, faces[fid], i, j)
        }
    &&& forall|j: int| 0 <= j < i ==> !(#[trigger] now[j]).pending()
    &&& forall|f1: int, f2: int|
        0 <= f1 < f2 < starts.len() ==> #[trigger] starts[f1] < #[trigger] starts[f2]
}

/// What holds between two faces, when the scan has come to index `next`:
/// the faces so far are complete, one empty face closes the list, and no
/// half-edge before `next` is pending.
pub open spec fn between(
    before: Seq<HalfEdge>,
    now: Seq<HalfEdge>,
    faces: Seq<Seq<usize>>,
    starts: Seq<usize>,
    next: int,
) -> bool {
    let fid = starts.len() as int;
    &&& now.len() == before.len()
    &&& forall|j: int| 0 <= j < before.len() ==> (#[trigger] before[j]).same_edge(now[j])
    &&& forall|j: int| 0 <= j < before.len() && !(#[trigger] before[j]).pending() ==> now[j] == before[j]
    &&& faces.len() == starts.len() + 1
    &&& faces[fid].len() == 0
    &&& starts.len() <= next <= before.len()
    &&& forall|f: int|
        0 <= f < starts.len() ==> chain_ok(before, now, #[trigger] faces[f], starts[f], f)
            && starts[f] < next
    &&& forall|j: int|
        0 <= j < before.len() && (#[trigger] before[j]).pending() && !now[j].pending() ==> {
            let f = now[j].face_id as int;
            f < fid && listed(before, faces[f], starts[f], j)
        }
    &&& forall|j: int| 0 <= j < next ==> !(#[trigger] now[j]).pending()
    &&& forall|f1: int, f2: int|
        0 <= f1 < f2 < starts.len() ==> #[trigger] starts[f1] < #[trigger] starts[f2]
}

/// Between two faces, the next face can be traced from the half-edge that
/// the scan has come to.
pub proof fn lemma_face_begins(
    before: Seq<HalfEdge>,
    now: Seq<HalfEdge>,
    faces: Seq<Seq<usize>>,
    starts: Seq<usize>,
    i: usize,
)
    requires
        between(before, now, faces, starts, i as int),
        i < before.len(),
    ensures
        tracing(before, now, faces, starts, i, i, 0),
{
    assert(hop(before, i, 0) == i);
    assert forall|f: int| 0 <= f < starts.len() implies chain_ok(
        before,
        now,
        #[trigger] faces[f],
        starts[f],
        f,
    ) && starts[f] < i by {}
}

/// One more half-edge on the chain: `cur` takes the face and its origin
/// is listed.
pub proof fn lemma_face_grows(
    before: Seq<HalfEdge>,
    now: Seq<HalfEdge>,
    faces: Seq<Seq<usize>>,
    starts: Seq<usize>,
    i: usize,
    cur: usize,
    k: nat,
    now2: Seq<HalfEdge>,
    faces2: Seq<Seq<usize>>,
)
    requires
        linked(before),
        tracing(before, now, faces, starts, i, cur, k),
        now[cur as int].pending(),
        before.len() <= usize::MAX,
        now2 == now.update(
            cur as int,
            HalfEdge { face_id: starts.len() as usize, ..now[cur as int] },
        ),
        faces2 == faces.update(
            starts.len() as int,
            faces[starts.len() as int].push(now[cur as int].origin_vert),
        ),
    ensures
        tracing(before, now2, faces2, starts, i, before[cur as int].next, k + 1),
        count_pending(now2) + 1 == count_pending(now),
{
    let fid = starts.len() as int;
    let next = before[cur as int].next;
    assert(before[cur as int].same_edge(now[cur as int]));
    assert(before[cur as int].pending());
    lemma_count_pending_update(now, cur as int, now2[cur as int]);
    assert(hop(before, i, k + 1) == next);
    assert forall|j: int| 0 <= j < before.len() implies (#[trigger] before[j]).same_edge(
        now2[j],
    ) by {
        assert(before[j].same_edge(now[j]));
    }
    assert forall|f: int| 0 <= f < starts.len() implies chain_ok(
        before,
        now2,
        #[trigger] faces2[f],
        starts[f],
        f,
    ) && starts[f] < i by {
        assert(chain_ok(before, now, faces[f], starts[f], f));
    }
    assert forall|q: nat| q < k + 1 implies ({
        let e = #[trigger] hop(before, i, q);
        &&& e < before.len()
        &&& before[e as int].pending()
        &&& now2[e as int].face_id == fid
        &&& faces2[fid][q as int] == before[e as int].origin_vert
    }) by {
        if q < k {
            let e = hop(before, i, q);
            assert(now[e as int].face_id == fid);
        }
    }
    assert forall|q1: nat, q2: nat| q1 < q2 < k + 1 implies #[trigger] hop(before, i, q1)
        != #[trigger] hop(before, i, q2) by {
        if q2 == k {
            let e = hop(before, i, q1);
            assert(now[e as int].face_id == fid);
        }
    }
    assert forall|j: int|
        0 <= j < before.len() && (#[trigger] before[j]).pending() && !now2[j].pending() implies ({
        let f = now2[j].face_id as int;
        ||| f < fid && listed(before, faces2[f], starts[f], j)
        ||| f == fid && listed(before, faces2[fid], i, j)
    }) by {
        if j == cur {
            assert(hop(before, i, k) == j);
        } else {
            let f = now[j].face_id as int;
            if f == fid {
                let q = choose|q: nat| q < faces[fid].len() && #[trigger] hop(before, i, q) == j;
                assert(q < faces2[fid].len() && hop(before, i, q) == j);
            }
        }
    }
    assert forall|j: int| 0 <= j < i implies !(#[trigger] now2[j]).pending() by {
        assert(!now[j].pending());
    }
}

/// A chain that has come to a half-edge with a face is a complete face,
/// if it holds any half-edge; the scan goes on behind its start.
pub proof fn lemma_face_ends(
    before: Seq<HalfEdge>,
    now: Seq<HalfEdge>,
    faces: Seq<Seq<usize>>,
    starts: Seq<usize>,
    i: usize,
    cur: usize,
    k: nat,
)
    requires
        tracing(before, now, faces, starts, i, cur, k),
        !now[cur as int].pending(),
        before.len() <= usize::MAX,
    ensures
        k == 0 ==> between(before, now, faces, starts, i + 1),
        k > 0 ==> between(before, now, faces.push(Seq::empty()), starts.push(i), i + 1),
{
    let fid = starts.len() as int;
    assert(hop(before, i, 0) == i);
    if k == 0 {
        assert forall|f: int| 0 <= f < starts.len() implies chain_ok(
            before,
            now,
            #[trigger] faces[f],
            starts[f],
            f,
        ) && starts[f] < i + 1 by {
            assert(chain_ok(before, now, faces[f], starts[f], f) && starts[f] < i);
        }
        assert forall|j: int|
            0 <= j < before.len() && (#[trigger] before[j]).pending()
                && !now[j].pending() implies ({
            let f = now[j].face_id as int;
            f < fid && listed(before, faces[f], starts[f], j)
        }) by {
            let f = now[j].face_id as int;
            if f == fid {
                assert(listed(before, faces[fid], i, j));
            }
        }
    } else {
        let faces2 = faces.push(Seq::empty());
        let starts2 = starts.push(i);
        assert(now[i as int].face_id == fid);
        assert(chain_ok(before, now, faces2[fid], starts2[fid], fid)) by {
            let e = hop(before, i, k);
            if before[e as int].pending() {
                assert(!now[e as int].pending());
            }
        }
        assert forall|f: int| 0 <= f < starts2.len() implies chain_ok(
            before,
            now,
            #[trigger] faces2[f],
            starts2[f],
            f,
        ) && starts2[f] < i + 1 by {
            if f < fid {
                assert(chain_ok(before, now, faces[f], starts[f], f));
            }
        }
        assert forall|j: int|
            0 <= j < before.len() && (#[trigger] before[j]).pending()
                && !now[j].pending() implies ({
            let f = now[j].face_id as int;
            f < starts2.len() && listed(before, faces2[f], starts2[f], j)
        }) by {
            let f = now[j].face_id as int;
            if f == fid {
                assert(listed(before, faces[fid], i, j));
            } else {
                assert(listed(before, faces[f], starts[f], j));
            }
        }
        assert forall|f1: int, f2: int| 0 <= f1 < f2 < starts2.len() implies 
            #[trigger] starts2[f1] < #[trigger] starts2[f2] by {
            if f2 == fid {
                assert(faces[f1].len() > 0);
                assert(starts[f1] < i);
            }
        }
    }
}

/// When the scan has come to the end of the table, the faces are traced
/// and no half-edge is pending.
pub proof fn lemma_scan_done(
    before: Seq<HalfEdge>,
    now: Seq<HalfEdge>,
    faces: Seq<Seq<usize>>,
    starts: Seq<usize>,
)
    requires
        between(before, now, faces, starts, before.len() as int),
    ensures
        traced(before, now, faces, starts),
        forall|j: int| 0 <= j < now.len() ==> !(#[trigger] now[j]).pending(),
{
    assert forall|f: int| 0 <= f < starts.len() implies chain_ok(
        before,
        now,
        #[trigger] faces[f],
        starts[f],
        f,
    ) by {}
}

/// Giving a pending half-edge a face leaves one pending half-edge fewer.
pub proof fn lemma_count_pending_update(edges: Seq<HalfEdge>, c: int, e: HalfEdge)
    requires
        0 <= c < edges.len(),
        edges[c].pending(),
        !e.pending(),
    ensures
        count_pending(edges.update(c, e)) + 1 == count_pending(edges),
    decreases edges.len(),
{
    let next = edges.update(c, e);
    if c == edges.len() - 1 {
        assert(next.drop_last() =~= edges.drop_last());
    } else {
        lemma_count_pending_update(edges.drop_last(), c, e);
        assert(next.drop_last() =~= edges.drop_last().update(c, e));
    }
}

impl DCEL {
    /// A table with the faces kept of it.
    pub fn from_parts(half_edges: Vec<HalfEdge>, faces: Vec<Face>) -> (dcel: Self)
        ensures
            dcel.half_edges_view() == half_edges@,
            dcel.faces_view() == faces.deep_view(),
    {
        DCEL { half_edges, faces }
    }

    /// The ends of a half-edge as one number.
    fn key_of(origin: usize, terminus: usize) -> (key: u128)
        ensures
            key == ends_key(origin, terminus),
    {
        (origin as u128) * 0x1_0000_0000_0000_0000u128 + (terminus as u128)
    }

    /// Makes the table of half-edges from the directed edges `found`: every
    /// edge enters it once, followed by its reverse, each with the other as
    /// its twin; an edge that is the reverse or the repetition of an
    /// earlier one is passed over.
    pub fn pair_half_edges(found: &Vec<HalfEdge>) -> (table: Vec<HalfEdge>)
        requires
            2 * found@.len() <= usize::MAX,
        ensures
            table@ == twinned(found@),
    {
        broadcast use vstd::std_specs::hash::group_hash_axioms;

        let mut table: Vec<HalfEdge> = Vec::new();
        let mut seen: HashSet<u128> = HashSet::new();
        let mut j: usize = 0;
        while j < found.len()
            invariant
                0 <= j <= found@.len(),
                2 * found@.len() <= usize::MAX,
                table@ == twinned(found@.subrange(0, j as int)),
                forall|key: u128|
                    seen@.contains(key) <==> exists|a: int|
                        0 <= a < table@.len() && ends_key(
                            (#[trigger] table@[a]).origin_vert,
                            table@[a].terminus_vert,
                        ) == key,
            decreases found@.len() - j,
        {
            let e = found[j];
            let key = Self::key_of(e.origin_vert, e.terminus_vert);
            let ghost before = table@;
            let ghost prefix = found@.subrange(0, j as int);
            let ghost longer = found@.subrange(0, j as int + 1);
            proof {
                assert(longer.drop_last() =~= prefix);
                assert(longer.last() == e);
                lemma_twinned_len(prefix);
                if has_ends(before, e.origin_vert, e.terminus_vert) {
                    let a = choose|a: int|
                        0 <= a < before.len() && (#[trigger] before[a]).origin_vert
                            == e.origin_vert && before[a].terminus_vert == e.terminus_vert;
                    assert(ends_key(before[a].origin_vert, before[a].terminus_vert) == key);
                }
                if seen@.contains(key) {
                    let a = choose|a: int|
                        0 <= a < before.len() && ends_key(
                            (#[trigger] before[a]).origin_vert,
                            before[a].terminus_vert,
                        ) == key;
                    assert(before[a].origin_vert == e.origin_vert && before[a].terminus_vert
                        == e.terminus_vert);
                }
            }
            if !seen.contains(&key) {
                let base_index = table.len();
                let twin_index = table.len() + 1;
                let base = HalfEdge { twin: twin_index, ..e };
                let twin = HalfEdge {
                    origin_vert: e.terminus_vert,
                    terminus_vert: e.origin_vert,
                    twin: base_index,
                    ..e
                };
                table.push(base);
                seen.insert(key);
                table.push(twin);
                seen.insert(Self::key_of(e.terminus_vert, e.origin_vert));
                proof {
                    let after = table@;
                    assert(after =~= before.push(base).push(twin));
                    assert forall|k: u128| seen@.contains(k) implies exists|a: int|
                        0 <= a < after.len() && ends_key(
                            (#[trigger] after[a]).origin_vert,
                            after[a].terminus_vert,
                        ) == k by {
                        if k == key {
                            assert(after[before.len() as int] == base);
                        } else if k == ends_key(e.terminus_vert, e.origin_vert) {
                            assert(after[before.len() as int + 1] == twin);
                        } else {
                            let a = choose|a: int|
                                0 <= a < before.len() && ends_key(
                                    (#[trigger] before[a]).origin_vert,
                                    before[a].terminus_vert,
                                ) == k;
                            assert(after[a] == before[a]);
                        }
                    }
                    assert forall|k: u128|
                        (exists|a: int|
                            0 <= a < after.len() && ends_key(
                                (#[trigger] after[a]).origin_vert,
                                after[a].terminus_vert,
                            ) == k) implies seen@.contains(k) by {
                        let a = choose|a: int|
                            0 <= a < after.len() && ends_key(
                                (#[trigger] after[a]).origin_vert,
                                after[a].terminus_vert,
                            ) == k;
                        if a < before.len() {
                            assert(after[a] == before[a]);
                        }
                    }
                }
            }
            j += 1;
        }
        proof {
            assert(found@.subrange(0, j as int) =~= found@);
        }
        table
    }

    /// Traces the faces of the table: a scan by ascending index starts a
    /// face at every half-edge that is still pending, and the face takes
    /// the chain of pending half-edges that `next` leads through from
    /// there. Every half-edge belongs to a face afterwards. The list of
    /// faces ends with an empty one.
    pub fn find_all_faces(half_edges: &mut Vec<HalfEdge>) -> (faces: Vec<Face>)
        requires
            linked(old(half_edges)@),
        ensures
            exists|starts: Seq<usize>|
                traced(old(half_edges)@, final(half_edges)@, faces.deep_view(), starts),
            forall|i: int|
                0 <= i < final(half_edges)@.len() ==> !(#[trigger] final(half_edges)@[i]).pending(),
    {
        let ghost before = half_edges@;
        let mut faces: Vec<Face> = Vec::new();
        faces.push(Vec::new());
        let ghost mut starts: Seq<usize> = Seq::empty();
        let n = half_edges.len();
        let mut i: usize = 0;
        while i < n
            invariant
                n == before.len(),
                i <= n,
                linked(before),
                between(before, half_edges@, face_seqs(faces@), starts, i as int),
            decreases n - i,
        {
            let face_id = faces.len() - 1;
            let mut cur = i;
            let ghost mut k: nat = 0;
            proof {
                lemma_face_begins(before, half_edges@, face_seqs(faces@), starts, i);
            }
            while half_edges[cur].face_id == usize::MAX
                invariant
                    n == before.len(),
                    i < n,
                    linked(before),
                    face_id == starts.len(),
                    cur < n,
                    tracing(before, half_edges@, face_seqs(faces@), starts, i, cur, k),
                decreases count_pending(half_edges@),
            {
                let ghost now = half_edges@;
                let ghost fs = face_seqs(faces@);
                let origin = half_edges[cur].origin_vert;
                let next = half_edges[cur].next;
                half_edges[cur].face_id = face_id;
                faces[face_id].push(origin);
                proof {
                    assert(before[cur as int].same_edge(now[cur as int]));
                    assert(half_edges@ =~= now.update(
                        cur as int,
                        HalfEdge { face_id: starts.len() as usize, ..now[cur as int] },
                    ));
                    assert(face_seqs(faces@) =~= fs.update(
                        starts.len() as int,
                        fs[starts.len() as int].push(origin),
                    ));
                    lemma_face_grows(
                        before,
                        now,
                        fs,
                        starts,
                        i,
                        cur,
                        k,
                        half_edges@,
                        face_seqs(faces@),
                    );
                    k = k + 1;
                }
                cur = next;
            }
            proof {
                lemma_face_ends(before, half_edges@, face_seqs(faces@), starts, i, cur, k);
            }
            if faces[face_id].len() > 0 {
                let ghost fs = face_seqs(faces@);
                faces.push(Vec::new());
                proof {
                    assert(face_seqs(faces@) =~= fs.push(Seq::empty()));
                    starts = starts.push(i);
                }
            }
            i += 1;
        }
        proof {
            lemma_scan_done(before, half_edges@, face_seqs(faces@), starts);
            assert(faces.deep_view() =~~= face_seqs(faces@));
        }
        faces
    }

    /// The half-edges of the table.
    pub closed spec fn half_edges_view(self) -> Seq<HalfEdge> {
        self.half_edges@
    }

    /// The faces of the table.
    pub closed spec fn faces_view(self) -> Seq<Seq<usize>> {
        self.faces.deep_view()
    }

    /// The faces of the table.
    pub fn faces(&self) -> (faces: &[Face])
        ensures
            faces.deep_view() == self.faces_view(),
    {
        self.faces.as_slice()
    }

    /// The half-edges of the table.
    pub fn half_edges(&self) -> (edges: &[HalfEdge])
        ensures
            edges@ == self.half_edges_view(),
    {
        self.half_edges.as_slice()
    }
}

} // verus!
