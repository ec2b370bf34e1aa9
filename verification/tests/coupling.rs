use qutub_transpiler::coupling::CouplingMap;

#[test]
fn linear_map_has_only_neighbor_edges() {
    let map = CouplingMap::linear(4);
    assert!(map.is_adjacent(0, 1));
    assert!(map.is_adjacent(1, 2));
    assert!(map.is_adjacent(2, 3));
    assert!(!map.is_adjacent(0, 2));
    assert!(!map.is_adjacent(0, 3));
    assert!(!map.is_adjacent(1, 3));
    assert!(map.is_adjacent(1, 0));
}

#[test]
fn shortest_path_walks_the_chain() {
    let map = CouplingMap::linear(5);
    assert_eq!(map.shortest_path(0, 3), Some(vec![0, 1, 2, 3]));
    assert_eq!(map.shortest_path(4, 4), Some(vec![4]));
    assert_eq!(map.shortest_path(3, 0), Some(vec![3, 2, 1, 0]));
}

#[test]
fn single_qubit_map_has_no_edges() {
    let map = CouplingMap::linear(1);
    assert!(!map.is_adjacent(0, 0));
    assert_eq!(map.shortest_path(0, 0), Some(vec![0]));
}

#[test]
fn heavy_hex_grid_1x1_matches_a_single_hexagon() {
    let map = CouplingMap::heavy_hex_grid(1, 1);
    assert_eq!(map.num_qubits(), 12, "a single hexagon should be 6 data + 6 flag qubits");
    for q in 0..12 {
        let degree = (0..12).filter(|&other| other != q && map.is_adjacent(q, other)).count();
        assert_eq!(degree, 2, "qubit {} should have exactly 2 neighbors on a bare hexagon", q);
    }
    for target in 1..12 {
        assert!(
            map.shortest_path(0, target).is_some(),
            "qubit {} should be reachable from qubit 0",
            target
        );
    }
}

#[test]
fn heavy_hex_grid_has_max_degree_three() {
    let map = CouplingMap::heavy_hex_grid(3, 3);
    let mut saw_degree_three = false;
    for q in 0..map.num_qubits() {
        let degree = (0..map.num_qubits())
            .filter(|&other| other != q && map.is_adjacent(q, other))
            .count();
        assert!(degree <= 3, "qubit {} has degree {} > 3", q, degree);
        if degree == 3 {
            saw_degree_three = true;
        }
    }
    assert!(saw_degree_three, "a 3x3 grid should have at least one interior degree-3 data qubit");
}

#[test]
fn heavy_hex_grid_is_fully_connected() {
    let map = CouplingMap::heavy_hex_grid(2, 3);
    for target in 1..map.num_qubits() {
        assert!(
            map.shortest_path(0, target).is_some(),
            "qubit {} should be reachable from qubit 0 in a 2x3 heavy-hex grid",
            target
        );
    }
}

#[test]
fn heavy_hex_for_returns_exact_requested_size() {
    for n in [0, 1, 2, 5, 12, 13, 25, 50, 77] {
        let map = CouplingMap::heavy_hex_for(n);
        assert_eq!(map.num_qubits(), n, "heavy_hex_for({}) returned the wrong qubit count", n);
    }
}

#[test]
fn heavy_hex_for_is_always_connected() {
    for n in [2, 5, 12, 13, 25, 50, 77] {
        let map = CouplingMap::heavy_hex_for(n);
        for target in 1..n {
            assert!(
                map.shortest_path(0, target).is_some(),
                "heavy_hex_for({}): qubit {} unreachable from qubit 0",
                n,
                target
            );
        }
    }
}

#[test]
fn heavy_hex_for_never_exceeds_degree_three() {
    for n in [12, 25, 50, 77] {
        let map = CouplingMap::heavy_hex_for(n);
        for q in 0..n {
            let degree = (0..n).filter(|&other| other != q && map.is_adjacent(q, other)).count();
            assert!(degree <= 3, "heavy_hex_for({}): qubit {} has degree {} > 3", n, q, degree);
        }
    }
}


#[test]
fn neighbors_matches_is_adjacent_on_a_linear_map() {
    let map = CouplingMap::linear(4);
    assert_eq!(map.neighbors(0), vec![1]);
    assert_eq!(map.neighbors(1), vec![0, 2]);
    assert_eq!(map.neighbors(2), vec![1, 3]);
    assert_eq!(map.neighbors(3), vec![2]);
}

#[test]
fn neighbors_matches_is_adjacent_on_a_heavy_hex_map() {
    let map = CouplingMap::heavy_hex_grid(2, 3);
    for q in 0..map.num_qubits() {
        let nbrs = map.neighbors(q);
        for other in 0..map.num_qubits() {
            assert_eq!(
                nbrs.contains(&other),
                map.is_adjacent(q, other),
                "neighbors({}) disagrees with is_adjacent({}, {})",
                q,
                q,
                other
            );
        }
    }
}

#[test]
fn square_grid_1x1_has_a_single_isolated_qubit() {
    let map = CouplingMap::square_grid(1, 1);
    assert_eq!(map.num_qubits(), 1);
    assert!(map.neighbors(0).is_empty());
}

#[test]
fn square_grid_2x3_matches_expected_degrees() {
    let map = CouplingMap::square_grid(2, 3);
    assert_eq!(map.num_qubits(), 6);
    let degree = |q: usize| {
        (0..6).filter(|&other| other != q && map.is_adjacent(q, other)).count()
    };
    let degrees: Vec<usize> = (0..6).map(degree).collect();
    let mut sorted = degrees.clone();
    sorted.sort_unstable();
    assert_eq!(
        sorted,
        vec![2, 2, 2, 2, 3, 3],
        "a 2x3 grid should have 4 corners (degree 2) and 2 edge-midpoints (degree 3): {:?}",
        degrees
    );
}

#[test]
fn from_edges_builds_a_map_matching_a_hand_checked_topology() {
    let map = CouplingMap::from_edges(4, vec![(0, 1), (1, 2), (1, 3)]).unwrap();
    assert_eq!(map.num_qubits(), 4);
    assert!(map.is_adjacent(0, 1));
    assert!(map.is_adjacent(1, 2));
    assert!(map.is_adjacent(1, 3));
    assert!(!map.is_adjacent(0, 2));
    assert!(!map.is_adjacent(2, 3));
    let degree = |q: usize| (0..4).filter(|&o| o != q && map.is_adjacent(q, o)).count();
    assert_eq!(degree(1), 3);
    assert_eq!(degree(0), 1);
}

#[test]
fn from_edges_is_direction_and_duplicate_insensitive() {
    let a = CouplingMap::from_edges(3, vec![(0, 2)]).unwrap();
    let b = CouplingMap::from_edges(3, vec![(2, 0), (0, 2)]).unwrap();
    assert!(a.is_adjacent(0, 2) && b.is_adjacent(0, 2));
    assert_eq!(a.neighbors(0), b.neighbors(0));
}

#[test]
fn from_edges_rejects_self_loop() {
    assert!(CouplingMap::from_edges(3, vec![(1, 1)]).is_err());
}

#[test]
fn from_edges_rejects_out_of_range_endpoint() {
    assert!(CouplingMap::from_edges(3, vec![(0, 5)]).is_err());
}

#[test]
fn from_edges_supports_irregular_real_device_style_topologies() {
    let map = CouplingMap::from_edges(5, vec![(0, 1), (0, 2), (0, 3)]).unwrap();
    assert_eq!(map.neighbors(4).len(), 0, "qubit 4 has no edges, same as a disabled qubit");
    assert_eq!(map.neighbors(0).len(), 3);
}

#[test]
fn square_grid_has_an_interior_degree_four_qubit() {
    let map = CouplingMap::square_grid(3, 3);
    let mut saw_degree_four = false;
    for q in 0..map.num_qubits() {
        let degree = (0..map.num_qubits())
            .filter(|&other| other != q && map.is_adjacent(q, other))
            .count();
        assert!(degree <= 4, "qubit {} has degree {} > 4", q, degree);
        if degree == 4 {
            saw_degree_four = true;
        }
    }
    assert!(saw_degree_four, "a 3x3 grid should have at least one interior degree-4 qubit");
}

#[test]
fn square_grid_is_fully_connected() {
    let map = CouplingMap::square_grid(3, 4);
    for target in 1..map.num_qubits() {
        assert!(
            map.shortest_path(0, target).is_some(),
            "qubit {} should be reachable from qubit 0 in a 3x4 square grid",
            target
        );
    }
}


#[test]
fn square_grid_for_returns_exact_requested_size() {
    for n in [0, 1, 2, 5, 9, 10, 16, 50, 77] {
        let map = CouplingMap::square_grid_for(n);
        assert_eq!(map.num_qubits(), n, "square_grid_for({}) returned the wrong qubit count", n);
    }
}

#[test]
fn square_grid_for_is_always_connected() {
    for n in [2, 5, 9, 10, 16, 50, 77] {
        let map = CouplingMap::square_grid_for(n);
        for target in 1..n {
            assert!(
                map.shortest_path(0, target).is_some(),
                "square_grid_for({}): qubit {} unreachable from qubit 0",
                n,
                target
            );
        }
    }
}

#[test]
fn square_grid_for_never_exceeds_degree_four() {
    for n in [9, 16, 50, 77] {
        let map = CouplingMap::square_grid_for(n);
        for q in 0..n {
            let degree = (0..n).filter(|&other| other != q && map.is_adjacent(q, other)).count();
            assert!(degree <= 4, "square_grid_for({}): qubit {} has degree {} > 4", n, q, degree);
        }
    }
}

#[test]
fn heavy_hex_for_dfs_numbering_keeps_the_identity_mapping_nearly_a_hamiltonian_path() {
    for &n in &[5usize, 10, 12, 13, 16, 25, 50, 77] {
        let map = CouplingMap::heavy_hex_for(n);
        let present = (0..n - 1).filter(|&i| map.is_adjacent(i, i + 1)).count();
        let total = n - 1;
        if n <= 12 {
            assert_eq!(
                present, total,
                "heavy_hex_for({}) is a bare cycle (see this module's doc comment) -- \
                 DFS numbering should trace it as a perfect Hamiltonian path, but only \
                 {}/{} consecutive-index pairs are adjacent",
                n, present, total
            );
        } else {
            assert!(
                present * 10 >= total * 9,
                "heavy_hex_for({}): DFS numbering should keep at least 90% of \
                 consecutive-index pairs graph-adjacent (only backtracking at real \
                 degree-3 branch points), got {}/{}",
                n, present, total
            );
        }
    }
}

#[test]
fn square_grid_for_dfs_numbering_keeps_the_identity_mapping_nearly_a_hamiltonian_path() {
    for &n in &[5usize, 9, 10, 16, 25, 50, 77] {
        let map = CouplingMap::square_grid_for(n);
        let present = (0..n - 1).filter(|&i| map.is_adjacent(i, i + 1)).count();
        let total = n - 1;
        assert!(
            present * 10 >= total * 8,
            "square_grid_for({}): DFS numbering should keep at least 80% of \
             consecutive-index pairs graph-adjacent, got {}/{}",
            n, present, total
        );
    }
}

#[test]
fn neighbors_matches_is_adjacent_on_a_square_grid_map() {
    let map = CouplingMap::square_grid(3, 4);
    for q in 0..map.num_qubits() {
        let nbrs = map.neighbors(q);
        for other in 0..map.num_qubits() {
            assert_eq!(
                nbrs.contains(&other),
                map.is_adjacent(q, other),
                "neighbors({}) disagrees with is_adjacent({}, {})",
                q,
                q,
                other
            );
        }
    }
}

/// The smallest number for which a lattice has at least `n` qubits.
fn smallest(n: usize, lattice: fn(usize, usize) -> CouplingMap) -> CouplingMap {
    let mut d = 1;
    while lattice(d, d).num_qubits() < n {
        d += 1;
    }
    lattice(d, d)
}

#[test]
fn maps_for_a_size_are_cut_from_whole_lattices() {
    for n in [2, 5, 12, 13, 30] {
        let hex = CouplingMap::heavy_hex_for(n);
        let whole_hex = smallest(n, CouplingMap::heavy_hex_grid);
        let square = CouplingMap::square_grid_for(n);
        let whole_square = smallest(n, CouplingMap::square_grid);
        for a in 0..n {
            for b in 0..n {
                assert_eq!(hex.is_adjacent(a, b), whole_hex.is_adjacent(a, b));
                assert_eq!(square.is_adjacent(a, b), whole_square.is_adjacent(a, b));
            }
        }
    }
}
