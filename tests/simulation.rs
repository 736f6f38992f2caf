use bubble::graph::{WeightedGraph, FULL_WEIGHT};
use bubble::simulation::{NetworkEvent, OpinionEvent, Simulation};
use bubble::topology::{ring_lattice, watts_strogatz};
use rand::rngs::StdRng;
use rand::SeedableRng;

const UNIT: i64 = 1_000_000;

fn star() -> WeightedGraph {
    let mut g = WeightedGraph::new(4);
    g.put(0, 1, 500_000);
    g.put(0, 2, 500_000);
    g.put(0, 3, 500_000);
    g
}

#[test]
fn initial_events_list_each_edge_once() {
    let g = ring_lattice(4, 2, 500_000);
    let sim = Simulation::new(g, vec![50 * UNIT; 4], 10 * UNIT, 40 * UNIT);
    let events = sim.initial_events();
    let pairs: Vec<(usize, usize)> = events.iter().map(|e| (e.sender, e.recipient)).collect();
    assert_eq!(pairs, vec![(1, 0), (2, 1), (3, 0), (3, 2)]);
    assert!(events.iter().all(|e| e.tick == 0 && e.weight == 500_000));
}

#[test]
fn step_applies_each_regime() {
    let opinions = vec![50 * UNIT, 55 * UNIT, 80 * UNIT, 0];
    let mut sim = Simulation::new(star(), opinions, 10 * UNIT, 40 * UNIT);
    let events = sim.step(7, 0, 55 * UNIT);
    assert_eq!(
        events,
        vec![
            NetworkEvent { tick: 7, sender: 0, recipient: 1, weight: 600_000 },
            NetworkEvent { tick: 7, sender: 0, recipient: 2, weight: 500_000 },
            NetworkEvent { tick: 7, sender: 0, recipient: 3, weight: 350_000 },
        ]
    );
    assert_eq!(sim.opinions(), &vec![50 * UNIT, 55 * UNIT, 80 * UNIT, 0]);
    assert_eq!(sim.graph().get(1, 0), 600_000);
    assert_eq!(sim.graph().get(3, 0), 350_000);
}

#[test]
fn step_moves_recipient_opinion() {
    let opinions = vec![55 * UNIT, 50 * UNIT, 50 * UNIT, 50 * UNIT];
    let mut sim = Simulation::new(star(), opinions, 10 * UNIT, 40 * UNIT);
    sim.step(1, 0, 55 * UNIT);
    assert_eq!(sim.opinions(), &vec![55 * UNIT, 50_025_000, 50_025_000, 50_025_000]);
    for r in 1..4 {
        assert_eq!(sim.graph().get(0, r), 550_000);
    }
}

#[test]
fn step_without_edges_emits_nothing_but_clamps() {
    let g = WeightedGraph::new(3);
    let mut sim = Simulation::new(g, vec![120 * UNIT, 30 * UNIT, 101 * UNIT], 10 * UNIT, 40 * UNIT);
    let events = sim.step(1, 1, 30 * UNIT);
    assert!(events.is_empty());
    assert_eq!(sim.opinions(), &vec![100 * UNIT, 30 * UNIT, 100 * UNIT]);
}

#[test]
fn opinion_events_cover_every_agent() {
    let sim = Simulation::new(WeightedGraph::new(3), vec![1, 2, 3], 0, 0);
    assert_eq!(
        sim.opinion_events(5),
        vec![
            OpinionEvent { tick: 5, agent: 0, opinion: 1 },
            OpinionEvent { tick: 5, agent: 1, opinion: 2 },
            OpinionEvent { tick: 5, agent: 2, opinion: 3 },
        ]
    );
}

#[test]
fn long_run_keeps_invariants() {
    let mut rng = StdRng::seed_from_u64(11);
    let g = watts_strogatz(12, 4, 200_000, 500_000, &mut rng);
    let opinions: Vec<i64> = (0..12).map(|i| (i * 9 + 3) * UNIT).collect();
    let mut sim = Simulation::new(g, opinions, 10 * UNIT, 40 * UNIT);
    assert_eq!(sim.population(), 12);
    for tick in 1..300u64 {
        let sender = sim.pick_sender(&mut rng);
        assert!(sender < 12);
        let message = sim.opinions()[sender] + ((tick as i64 * 37) % 41 - 20) * UNIT;
        sim.step(tick, sender, message);
        for i in 0..12 {
            assert!(sim.opinions()[i] >= 0 && sim.opinions()[i] <= 100 * UNIT);
            assert_eq!(sim.graph().get(i, i), 0);
            for j in 0..12 {
                assert_eq!(sim.graph().get(i, j), sim.graph().get(j, i));
                assert!(sim.graph().get(i, j) <= FULL_WEIGHT);
            }
        }
    }
}
