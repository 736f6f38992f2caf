use bubble::graph::{WeightedGraph, FULL_WEIGHT};
use bubble::topology::{rewire_edge, ring_lattice, watts_strogatz, PROBABILITY_SCALE};
use rand::rngs::StdRng;
use rand::SeedableRng;

const MARKER: u32 = 500_000;

fn edge_count(g: &WeightedGraph) -> usize {
    let mut count = 0;
    for row in 0..g.size() {
        for col in 0..row {
            if g.get(row, col) != 0 {
                count += 1;
            }
        }
    }
    count
}

fn assert_well_formed(g: &WeightedGraph) {
    for i in 0..g.size() {
        assert_eq!(g.get(i, i), 0);
        for j in 0..g.size() {
            assert_eq!(g.get(i, j), g.get(j, i));
            assert!(g.get(i, j) <= FULL_WEIGHT);
        }
    }
}

#[test]
fn new_graph_is_empty() {
    let g = WeightedGraph::new(4);
    assert_eq!(g.size(), 4);
    assert_eq!(edge_count(&g), 0);
    assert_well_formed(&g);
}

#[test]
fn put_writes_both_directions() {
    let mut g = WeightedGraph::new(3);
    g.put(0, 2, 250_000);
    assert_eq!(g.get(0, 2), 250_000);
    assert_eq!(g.get(2, 0), 250_000);
    assert_eq!(g.get(0, 1), 0);
    assert_well_formed(&g);
}

#[test]
fn ring_lattice_six_nodes_degree_two() {
    let g = ring_lattice(6, 2, MARKER);
    for i in 0..6 {
        for j in 0..6 {
            let adjacent = j == (i + 1) % 6 || i == (j + 1) % 6;
            assert_eq!(g.get(i, j), if adjacent { MARKER } else { 0 });
        }
    }
}

#[test]
fn ring_lattice_degree_of_every_node() {
    let g = ring_lattice(9, 4, MARKER);
    for i in 0..9 {
        let degree = (0..9).filter(|&j| g.get(i, j) != 0).count();
        assert_eq!(degree, 4);
        assert_eq!(g.get(i, (i + 2) % 9), MARKER);
        assert_eq!(g.get(i, (i + 7) % 9), MARKER);
        assert_eq!(g.get(i, (i + 3) % 9), 0);
    }
    assert_eq!(edge_count(&g), 18);
    assert_well_formed(&g);
}

#[test]
fn ring_lattice_degree_zero_has_no_edges() {
    let g = ring_lattice(5, 0, MARKER);
    assert_eq!(edge_count(&g), 0);
    let single = ring_lattice(1, 0, MARKER);
    assert_eq!(single.size(), 1);
    assert_eq!(single.get(0, 0), 0);
}

#[test]
fn no_rewiring_keeps_the_lattice() {
    for seed in 0..5 {
        let mut rng = StdRng::seed_from_u64(seed);
        let g = watts_strogatz(6, 2, 0, MARKER, &mut rng);
        for i in 0..6 {
            assert_eq!(g.get(i, (i + 1) % 6), MARKER);
            assert_eq!(g.get(i, (i + 5) % 6), MARKER);
            assert_eq!(g.get(i, (i + 2) % 6), 0);
            assert_eq!(g.get(i, (i + 3) % 6), 0);
        }
    }
}

#[test]
fn full_rewiring_keeps_invariants() {
    let lattice = ring_lattice(20, 4, MARKER);
    let mut changed = false;
    for seed in 0..5 {
        let mut rng = StdRng::seed_from_u64(seed);
        let g = watts_strogatz(20, 4, PROBABILITY_SCALE, MARKER, &mut rng);
        assert_well_formed(&g);
        assert!(edge_count(&g) <= 40);
        for i in 0..20 {
            for j in 0..20 {
                assert!(g.get(i, j) == 0 || g.get(i, j) == MARKER);
                if g.get(i, j) != lattice.get(i, j) {
                    changed = true;
                }
            }
        }
    }
    assert!(changed);
}

#[test]
fn rewire_edge_moves_one_edge() {
    let mut g = ring_lattice(6, 2, MARKER);
    assert_eq!(edge_count(&g), 6);
    rewire_edge(&mut g, 3, 2, 0, MARKER);
    assert_eq!(g.get(3, 2), 0);
    assert_eq!(g.get(2, 3), 0);
    assert_eq!(g.get(3, 0), MARKER);
    assert_eq!(g.get(0, 3), MARKER);
    assert_eq!(edge_count(&g), 6);
    assert_well_formed(&g);
}

#[test]
fn rewire_edge_onto_existing_edge_loses_one() {
    let mut g = ring_lattice(6, 2, MARKER);
    rewire_edge(&mut g, 3, 2, 4, MARKER);
    assert_eq!(g.get(3, 4), MARKER);
    assert_eq!(edge_count(&g), 5);
}

#[test]
fn degree_zero_full_rewiring_has_no_edges() {
    for seed in 0..5 {
        let mut rng = StdRng::seed_from_u64(seed);
        let g = watts_strogatz(5, 0, PROBABILITY_SCALE, MARKER, &mut rng);
        for i in 0..5 {
            for j in 0..5 {
                assert_eq!(g.get(i, j), 0);
            }
        }
    }
}

#[test]
fn rewiring_keeps_some_edges_and_never_adds() {
    for seed in 0..10 {
        let mut rng = StdRng::seed_from_u64(seed);
        let g = watts_strogatz(10, 2, PROBABILITY_SCALE, MARKER, &mut rng);
        let count = edge_count(&g);
        assert!(count > 0);
        assert!(count <= 10 * 2 / 2);
    }
}

#[test]
fn equal_seeds_give_equal_graphs() {
    let mut a = StdRng::seed_from_u64(42);
    let mut b = StdRng::seed_from_u64(42);
    let ga = watts_strogatz(15, 4, 300_000, MARKER, &mut a);
    let gb = watts_strogatz(15, 4, 300_000, MARKER, &mut b);
    for i in 0..15 {
        for j in 0..15 {
            assert_eq!(ga.get(i, j), gb.get(i, j));
        }
    }
}
