use data_structures::dcel::{HalfEdge, DCEL};

fn edge(origin: usize, terminus: usize, twin: usize, next: usize) -> HalfEdge {
    HalfEdge {
        twin,
        next,
        ..HalfEdge::new(origin, terminus)
    }
}

#[test]
fn a_new_half_edge_has_nothing_assigned() {
    let e = HalfEdge::new(3, 8);
    assert_eq!(e.origin_vert, 3);
    assert_eq!(e.terminus_vert, 8);
    assert_eq!(e.twin, usize::MAX);
    assert_eq!(e.next, usize::MAX);
    assert_eq!(e.face_id, usize::MAX);
}

#[test]
fn a_triangle_has_an_inner_and_an_outer_face() {
    let mut edges = vec![
        edge(0, 1, 1, 2),
        edge(1, 0, 0, 5),
        edge(1, 2, 3, 4),
        edge(2, 1, 2, 1),
        edge(2, 0, 5, 0),
        edge(0, 2, 4, 3),
    ];
    let faces = DCEL::find_all_faces(&mut edges);
    assert_eq!(faces, vec![vec![0, 1, 2], vec![1, 0, 2], vec![]]);
    let ids: Vec<usize> = edges.iter().map(|e| e.face_id).collect();
    assert_eq!(ids, vec![0, 1, 0, 1, 0, 1]);
    assert_eq!(edges[2], HalfEdge { face_id: 0, ..edge(1, 2, 3, 4) });
}

#[test]
fn an_empty_table_has_one_empty_face() {
    let mut edges: Vec<HalfEdge> = Vec::new();
    let faces = DCEL::find_all_faces(&mut edges);
    assert_eq!(faces, vec![Vec::<usize>::new()]);
}

#[test]
fn half_edges_that_belong_to_a_face_are_passed_over() {
    let mut edges = vec![
        HalfEdge { face_id: 7, ..edge(0, 1, 1, 1) },
        edge(1, 2, 0, 2),
        edge(2, 0, 3, 0),
        HalfEdge { face_id: 9, ..edge(5, 6, 2, 3) },
    ];
    let faces = DCEL::find_all_faces(&mut edges);
    assert_eq!(faces, vec![vec![1, 2], vec![]]);
    assert_eq!(edges[0].face_id, 7);
    assert_eq!(edges[1].face_id, 0);
    assert_eq!(edges[2].face_id, 0);
    assert_eq!(edges[3].face_id, 9);
}

#[test]
fn a_chain_that_runs_into_itself_stops_there() {
    let mut edges = vec![
        edge(10, 11, 0, 1),
        edge(11, 12, 0, 2),
        edge(12, 11, 0, 1),
        edge(20, 10, 0, 0),
    ];
    let faces = DCEL::find_all_faces(&mut edges);
    assert_eq!(faces, vec![vec![10, 11, 12], vec![20], vec![]]);
    assert_eq!(edges[3].face_id, 1);
}

#[test]
fn from_parts_keeps_edges_and_faces() {
    let edges = vec![edge(0, 1, 1, 0), edge(1, 0, 0, 1)];
    let dcel = DCEL::from_parts(edges.clone(), vec![vec![0], vec![1]]);
    assert_eq!(dcel.faces().len(), 2);
    assert_eq!(dcel.faces()[1], vec![1]);
    assert_eq!(dcel.half_edges(), &edges[..]);
}

#[test]
fn every_edge_enters_the_table_with_its_twin() {
    let found = vec![
        HalfEdge::new(0, 1),
        HalfEdge::new(1, 2),
        HalfEdge::new(1, 0),
        HalfEdge::new(2, 0),
        HalfEdge::new(0, 1),
        HalfEdge::new(2, 1),
    ];
    let table = DCEL::pair_half_edges(&found);
    assert_eq!(
        table,
        vec![
            HalfEdge { twin: 1, ..HalfEdge::new(0, 1) },
            HalfEdge { twin: 0, ..HalfEdge::new(1, 0) },
            HalfEdge { twin: 3, ..HalfEdge::new(1, 2) },
            HalfEdge { twin: 2, ..HalfEdge::new(2, 1) },
            HalfEdge { twin: 5, ..HalfEdge::new(2, 0) },
            HalfEdge { twin: 4, ..HalfEdge::new(0, 2) },
        ]
    );
}

#[test]
fn pairing_keeps_what_an_edge_carries_besides_its_twin() {
    let found = vec![HalfEdge {
        next: 4,
        face_id: 9,
        twin: 77,
        ..HalfEdge::new(5, 6)
    }];
    let table = DCEL::pair_half_edges(&found);
    assert_eq!(
        table,
        vec![
            HalfEdge { origin_vert: 5, terminus_vert: 6, twin: 1, next: 4, face_id: 9 },
            HalfEdge { origin_vert: 6, terminus_vert: 5, twin: 0, next: 4, face_id: 9 },
        ]
    );
}

#[test]
fn pairing_no_edges_gives_an_empty_table() {
    assert_eq!(DCEL::pair_half_edges(&Vec::new()), Vec::<HalfEdge>::new());
}

#[test]
fn a_loop_edge_is_its_own_reverse() {
    let table = DCEL::pair_half_edges(&vec![HalfEdge::new(3, 3), HalfEdge::new(3, 3)]);
    assert_eq!(
        table,
        vec![
            HalfEdge { twin: 1, ..HalfEdge::new(3, 3) },
            HalfEdge { twin: 0, ..HalfEdge::new(3, 3) },
        ]
    );
}
