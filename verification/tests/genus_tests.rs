use graph_genus::{
    checked_factorial, componenets, count_faces, decode_rotation, full_genus, genus,
    half_edge_model, is_incident, rotation_count, search_is_feasible, trace_faces, Edge, Graph,
    Vertex,
};

fn edges(pairs: &[(u64, u64)]) -> Graph {
    pairs.iter().map(|&(a, b)| (Vertex(a), Vertex(b))).collect()
}

fn complete(n: u64) -> Graph {
    let mut g: Graph = Vec::new();
    for a in 0..n {
        for b in (a + 1)..n {
            g.push((Vertex(a), Vertex(b)));
        }
    }
    g
}

fn complete_bipartite(left: u64, right: u64) -> Graph {
    let mut g: Graph = Vec::new();
    for a in 0..left {
        for b in 0..right {
            g.push((Vertex(a), Vertex(left + b)));
        }
    }
    g
}

fn sorted(mut v: Vec<Edge>) -> Vec<(u64, u64)> {
    let mut out: Vec<(u64, u64)> = v.drain(..).map(|(a, b)| (a.0, b.0)).collect();
    out.sort();
    out
}

#[test]
fn triangle_is_planar() {
    let g = edges(&[(0, 1), (1, 2), (2, 0)]);
    assert_eq!(genus(&g), 0);
    assert_eq!(full_genus(&g), 0);
}

#[test]
fn triangle_has_two_faces_for_its_only_rotation() {
    let g = edges(&[(0, 1), (1, 2), (2, 0)]);
    let (pairing, groups) = half_edge_model(&g);
    assert_eq!(rotation_count(&groups), Some(1));
    let rotation = decode_rotation(&groups, pairing.len(), 0);
    assert_eq!(rotation, vec![5, 2, 1, 4, 3, 0]);
    assert_eq!(count_faces(&pairing, &rotation), 2);
    assert_eq!(trace_faces(&pairing, &rotation), vec![vec![0, 2, 4], vec![1, 5, 3]]);
}

#[test]
fn two_disjoint_triangles_are_planar() {
    let g = edges(&[(0, 1), (1, 2), (2, 0), (10, 11), (11, 12), (12, 10)]);
    assert_eq!(componenets(&g).len(), 2);
    assert_eq!(full_genus(&g), 0);
}

#[test]
fn single_loop_is_planar() {
    let g = edges(&[(7, 7)]);
    let (pairing, groups) = half_edge_model(&g);
    assert_eq!(pairing, vec![1, 0]);
    assert_eq!(groups, vec![vec![0, 1]]);
    assert_eq!(rotation_count(&groups), Some(1));
    assert_eq!(genus(&g), 0);
    assert_eq!(full_genus(&g), 0);
}

#[test]
fn empty_graph_has_no_components_and_total_genus_zero() {
    let g: Graph = Vec::new();
    assert_eq!(componenets(&g).len(), 0);
    assert_eq!(full_genus(&g), 0);
}

#[test]
fn empty_edge_list_alone_gives_one_by_the_formula() {
    let g: Graph = Vec::new();
    let (pairing, groups) = half_edge_model(&g);
    assert!(pairing.is_empty());
    assert!(groups.is_empty());
    assert_eq!(rotation_count(&groups), Some(1));
    assert_eq!(genus(&g), 1);
}

#[test]
fn complete_graph_on_four_vertices_is_planar() {
    let g = complete(4);
    let (_, groups) = half_edge_model(&g);
    assert_eq!(rotation_count(&groups), Some(16));
    assert_eq!(genus(&g), 0);
}

#[test]
fn complete_graph_on_five_vertices_has_genus_one() {
    let g = complete(5);
    let (_, groups) = half_edge_model(&g);
    assert_eq!(rotation_count(&groups), Some(7776));
    assert_eq!(genus(&g), 1);
    assert_eq!(full_genus(&g), 1);
}

#[test]
fn utility_graph_has_genus_one() {
    let g = complete_bipartite(3, 3);
    let (_, groups) = half_edge_model(&g);
    assert_eq!(rotation_count(&groups), Some(64));
    assert_eq!(genus(&g), 1);
}

#[test]
fn three_by_four_bipartite_graph_has_genus_one() {
    let g = complete_bipartite(3, 4);
    let (_, groups) = half_edge_model(&g);
    assert_eq!(rotation_count(&groups), Some(3456));
    assert_eq!(full_genus(&g), 1);
}

#[test]
fn genus_adds_over_components() {
    let mut g = complete(5);
    for (a, b) in complete_bipartite(3, 3) {
        g.push((Vertex(a.0 + 100), Vertex(b.0 + 100)));
    }
    g.push((Vertex(500), Vertex(501)));
    let parts = componenets(&g);
    assert_eq!(parts.len(), 3);
    let sum: usize = parts.iter().map(|p| genus(p)).sum();
    assert_eq!(sum, 2);
    assert_eq!(full_genus(&g), 2);
}

#[test]
fn tree_is_planar_with_one_face() {
    let g = edges(&[(0, 1), (0, 2), (0, 3), (0, 4)]);
    let (pairing, groups) = half_edge_model(&g);
    assert_eq!(groups, vec![vec![0, 2, 4, 6], vec![1], vec![3], vec![5], vec![7]]);
    assert_eq!(rotation_count(&groups), Some(6));
    for index in 0..6 {
        let rotation = decode_rotation(&groups, pairing.len(), index);
        assert_eq!(count_faces(&pairing, &rotation), 1);
    }
    assert_eq!(genus(&g), 0);
}

#[test]
fn decode_draws_with_the_index_and_fills_gaps_from_the_end() {
    let g = edges(&[(0, 1), (0, 2), (0, 3), (0, 4)]);
    let (pairing, groups) = half_edge_model(&g);
    let n = pairing.len();
    assert_eq!(decode_rotation(&groups, n, 0), vec![2, 1, 6, 3, 0, 5, 4, 7]);
    assert_eq!(decode_rotation(&groups, n, 1), vec![4, 1, 6, 3, 2, 5, 0, 7]);
    assert_eq!(decode_rotation(&groups, n, 5), vec![6, 1, 0, 3, 2, 5, 4, 7]);
}

#[test]
fn decode_hands_the_index_on_from_group_to_group() {
    // two vertices joined by three parallel edges: groups [0, 2, 4] and [1, 3, 5]
    let g = edges(&[(0, 1), (0, 1), (0, 1)]);
    let (pairing, groups) = half_edge_model(&g);
    assert_eq!(groups, vec![vec![0, 2, 4], vec![1, 3, 5]]);
    assert_eq!(rotation_count(&groups), Some(4));
    let n = pairing.len();
    // index 2: first group draws with 2 % 2 = 0, then 1 % 1; second group starts from 2 / 2 / 1 = 1
    assert_eq!(decode_rotation(&groups, n, 0), vec![2, 3, 4, 5, 0, 1]);
    assert_eq!(decode_rotation(&groups, n, 1), vec![4, 3, 0, 5, 2, 1]);
    assert_eq!(decode_rotation(&groups, n, 2), vec![2, 5, 4, 1, 0, 3]);
    assert_eq!(decode_rotation(&groups, n, 3), vec![4, 5, 0, 1, 2, 3]);
}

#[test]
fn every_index_decodes_to_its_own_rotation() {
    let g = complete(5);
    let (pairing, groups) = half_edge_model(&g);
    let count = rotation_count(&groups).unwrap();
    let mut all: Vec<Vec<usize>> = (0..count)
        .map(|index| decode_rotation(&groups, pairing.len(), index))
        .collect();
    all.sort();
    all.dedup();
    assert_eq!(all.len(), count);
}

#[test]
fn every_rotation_is_a_cycle_round_each_vertex() {
    let g = complete(4);
    let (pairing, groups) = half_edge_model(&g);
    let count = rotation_count(&groups).unwrap();
    for index in 0..count {
        let rotation = decode_rotation(&groups, pairing.len(), index);
        for group in &groups {
            let mut at = group[0];
            let mut met = vec![at];
            for _ in 1..group.len() {
                at = rotation[at];
                assert!(group.contains(&at));
                assert!(!met.contains(&at));
                met.push(at);
            }
            assert_eq!(rotation[at], group[0]);
        }
    }
}

#[test]
fn faces_part_the_half_edges() {
    let g = complete(5);
    let (pairing, groups) = half_edge_model(&g);
    let count = rotation_count(&groups).unwrap();
    for index in (0..count).step_by(97) {
        let rotation = decode_rotation(&groups, pairing.len(), index);
        let faces = trace_faces(&pairing, &rotation);
        let mut met: Vec<usize> = Vec::new();
        for face in &faces {
            assert!(!face.is_empty());
            for (t, &d) in face.iter().enumerate() {
                let next = face[(t + 1) % face.len()];
                assert_eq!(rotation[pairing[d]], next);
                met.push(d);
            }
        }
        met.sort();
        assert_eq!(met, (0..pairing.len()).collect::<Vec<usize>>());
        assert_eq!(count_faces(&pairing, &rotation), faces.len());
    }
}

#[test]
fn euler_relation_holds_for_every_rotation() {
    let g = complete_bipartite(3, 3);
    let (pairing, groups) = half_edge_model(&g);
    let count = rotation_count(&groups).unwrap();
    let v = groups.len();
    let e = g.len();
    let mut most = 0;
    for index in 0..count {
        let rotation = decode_rotation(&groups, pairing.len(), index);
        let f = count_faces(&pairing, &rotation);
        assert!(v + f <= e + 2);
        assert_eq!((v + e + f) % 2, 0);
        if f > most {
            most = f;
        }
    }
    assert_eq!(most, 3);
    assert_eq!(genus(&g), (e + 2 - v - most) / 2);
}

#[test]
fn two_loops_can_be_drawn_on_a_torus_with_one_face() {
    let g = edges(&[(0, 0), (0, 0)]);
    let (pairing, groups) = half_edge_model(&g);
    assert_eq!(pairing, vec![1, 0, 3, 2]);
    assert_eq!(groups, vec![vec![0, 1, 2, 3]]);
    // the loops interleave round the vertex: 0 -> 2 -> 1 -> 3 -> 0
    let crossed = vec![2, 3, 1, 0];
    assert_eq!(trace_faces(&pairing, &crossed), vec![vec![0, 3, 1, 2]]);
    assert_eq!(count_faces(&pairing, &crossed), 1);
    // side by side: 0 -> 1 -> 2 -> 3 -> 0
    let nested = vec![1, 2, 3, 0];
    assert_eq!(count_faces(&pairing, &nested), 3);
    assert_eq!(genus(&g), 0);
}

#[test]
fn parallel_edges_are_kept_apart() {
    let g = edges(&[(0, 1), (0, 1)]);
    let (pairing, groups) = half_edge_model(&g);
    assert_eq!(pairing, vec![1, 0, 3, 2]);
    assert_eq!(groups, vec![vec![0, 2], vec![1, 3]]);
    assert_eq!(genus(&g), 0);
}

#[test]
fn pairing_exchanges_the_halves_of_each_edge() {
    let g = complete(4);
    let (pairing, groups) = half_edge_model(&g);
    assert_eq!(pairing.len(), 12);
    for d in 0..pairing.len() {
        assert_ne!(pairing[d], d);
        assert_eq!(pairing[pairing[d]], d);
        assert_eq!(pairing[d] / 2, d / 2);
    }
    let degrees: Vec<usize> = groups.iter().map(|g| g.len()).collect();
    assert_eq!(degrees, vec![3, 3, 3, 3]);
}

#[test]
fn groups_stand_in_order_of_first_occurrence() {
    let g = edges(&[(5, 3), (3, 9), (9, 5), (3, 3)]);
    let (_, groups) = half_edge_model(&g);
    assert_eq!(groups, vec![vec![0, 5], vec![1, 2, 6, 7], vec![3, 4]]);
}

#[test]
fn sample_graph_is_one_component_with_the_stated_rotation_space() {
    let g = complete_bipartite(5, 4);
    assert_eq!(g.len(), 20);
    assert_eq!(g[0], (Vertex(0), Vertex(5)));
    assert_eq!(g[19], (Vertex(4), Vertex(8)));
    let parts = componenets(&g);
    assert_eq!(parts.len(), 1);
    assert_eq!(sorted(parts[0].clone()), sorted(g.clone()));
    let (pairing, groups) = half_edge_model(&parts[0]);
    assert_eq!(pairing.len(), 40);
    assert_eq!(groups.len(), 9);
    assert_eq!(rotation_count(&groups), Some(2_579_890_176));
}

#[test]
fn rotation_count_reports_what_does_not_fit() {
    let star: Graph = (1..=30).map(|leaf| (Vertex(0), Vertex(leaf))).collect();
    let (_, groups) = half_edge_model(&star);
    assert_eq!(groups[0].len(), 30);
    assert_eq!(rotation_count(&groups), None);
}

#[test]
fn factorial_values() {
    assert_eq!(checked_factorial(0), Some(1));
    assert_eq!(checked_factorial(1), Some(1));
    assert_eq!(checked_factorial(5), Some(120));
    assert_eq!(checked_factorial(12), Some(479_001_600));
    assert_eq!(checked_factorial(100), None);
}

#[test]
fn components_keep_every_edge_once() {
    let g = edges(&[(0, 1), (2, 3), (4, 5), (1, 4), (6, 6), (3, 2), (0, 5)]);
    let parts = componenets(&g);
    let mut all: Vec<Edge> = Vec::new();
    for p in &parts {
        all.extend(p.iter().cloned());
    }
    assert_eq!(sorted(all), sorted(g.clone()));
    for (a, p) in parts.iter().enumerate() {
        for (b, q) in parts.iter().enumerate() {
            if a != b {
                for &(u, v) in p {
                    assert!(!is_incident(q, u));
                    assert!(!is_incident(q, v));
                }
            }
        }
    }
}

#[test]
fn joining_edge_stays_in_the_joined_component() {
    let g = edges(&[(0, 1), (2, 3), (1, 2)]);
    let parts = componenets(&g);
    assert_eq!(parts, vec![edges(&[(0, 1), (2, 3), (1, 2)])]);
}

#[test]
fn joined_component_starts_with_the_first_end_s_edges() {
    let g = edges(&[(2, 3), (0, 1), (1, 2)]);
    let parts = componenets(&g);
    assert_eq!(parts, vec![edges(&[(0, 1), (2, 3), (1, 2)])]);
}

#[test]
fn joined_component_moves_to_the_end() {
    let g = edges(&[(0, 1), (2, 3), (4, 5), (1, 4)]);
    let parts = componenets(&g);
    assert_eq!(parts, vec![edges(&[(2, 3)]), edges(&[(0, 1), (4, 5), (1, 4)])]);
}

#[test]
fn edge_with_one_known_end_joins_that_component() {
    let g = edges(&[(0, 1), (2, 3), (9, 2), (1, 8), (1, 0)]);
    let parts = componenets(&g);
    assert_eq!(parts, vec![edges(&[(0, 1), (1, 8), (1, 0)]), edges(&[(2, 3), (9, 2)])]);
}

#[test]
fn incidence_looks_at_both_ends() {
    let g = edges(&[(0, 1), (2, 3)]);
    assert!(is_incident(&g, Vertex(0)));
    assert!(is_incident(&g, Vertex(3)));
    assert!(!is_incident(&g, Vertex(4)));
    assert!(!is_incident(&Vec::new(), Vertex(0)));
}

#[test]
fn petersen_graph_has_genus_one() {
    let g = edges(&[
        (0, 1), (1, 2), (2, 3), (3, 4), (4, 0),
        (0, 5), (1, 6), (2, 7), (3, 8), (4, 9),
        (5, 7), (7, 9), (9, 6), (6, 8), (8, 5),
    ]);
    let (_, groups) = half_edge_model(&g);
    assert_eq!(rotation_count(&groups), Some(1024));
    assert_eq!(genus(&g), 1);
}

#[test]
fn search_is_feasible_where_every_component_can_be_numbered() {
    assert!(search_is_feasible(&Vec::new()));
    assert!(search_is_feasible(&complete(5)));
    assert!(search_is_feasible(&complete_bipartite(5, 4)));
}

#[test]
fn search_is_not_feasible_where_one_component_has_too_many_rotations() {
    let mut g = complete(4);
    for leaf in 1..=30 {
        g.push((Vertex(100), Vertex(100 + leaf)));
    }
    assert!(!search_is_feasible(&g));
}

#[test]
fn faces_start_at_their_least_half_edge_and_are_sorted_by_it() {
    let g = complete(4);
    let (pairing, groups) = half_edge_model(&g);
    let count = rotation_count(&groups).unwrap();
    for index in 0..count {
        let rotation = decode_rotation(&groups, pairing.len(), index);
        let faces = trace_faces(&pairing, &rotation);
        for face in &faces {
            assert_eq!(face.iter().min(), Some(&face[0]));
        }
        for pair in faces.windows(2) {
            assert!(pair[0][0] < pair[1][0]);
        }
    }
}

#[test]
fn bowtie_is_planar() {
    let g = edges(&[(0, 1), (1, 2), (2, 0), (0, 3), (3, 4), (4, 0)]);
    let (_, groups) = half_edge_model(&g);
    assert_eq!(groups[0], vec![0, 5, 6, 11]);
    assert_eq!(rotation_count(&groups), Some(6));
    assert_eq!(genus(&g), 0);
}
