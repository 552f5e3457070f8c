use aether::brain::{action_label, sensor_label, Brain};
use aether::genome::{Gene, Genome};
use rand::rngs::StdRng;
use rand::SeedableRng;

fn wired(weight: i16, sink_action: bool) -> Genome {
    let mut rng = StdRng::seed_from_u64(1);
    let mut genome = Genome::random(&mut rng);
    let mut data = 0u32;
    data |= u32::from(sink_action) << 23;
    data |= (weight as u16) as u32;
    genome.genes = vec![Gene { data }];
    genome.inner_neurons = 2;
    genome
}

#[test]
fn dead_end_inner_wire_is_pruned() {
    let mut rng = StdRng::seed_from_u64(3);
    let mut genome = Genome::random(&mut rng);
    let mut data = 0u32;
    data |= 1 << 31;
    data |= 1 << 16;
    data |= 8000u32;
    genome.genes = vec![Gene { data }];
    genome.inner_neurons = 3;
    let brain = Brain::from_genome(&genome);
    assert_eq!(brain.synapse_count(), 0);
}

#[test]
fn sensor_to_action_wire_is_kept_with_innate_weight() {
    let genome = wired(8000, true);
    let brain = Brain::from_genome(&genome);
    assert_eq!(brain.synapse_count(), 1);
    assert_eq!(brain.neuron_count(), 2);
    assert_eq!(brain.kinds(), vec![0u8, 2u8]);
    assert_eq!(brain.wires(), vec![(0usize, 1usize, 8000i16)]);
    assert_eq!(brain.labels(), vec!["pozice X".to_string(), "pohyb X".to_string()]);
    // A raw weight of 8000 stands for 1.0.
    assert!((brain.wires()[0].2 as f32 / 8000.0 - 1.0).abs() < 1e-6);
}

#[test]
fn sensor_to_dead_inner_is_pruned() {
    let genome = wired(8000, false);
    let brain = Brain::from_genome(&genome);
    assert_eq!(brain.synapse_count(), 0);
    assert_eq!(brain.neuron_count(), 0);
    assert!(brain.labels().is_empty());
}

#[test]
fn inner_chain_to_action_survives_pruning() {
    let mut rng = StdRng::seed_from_u64(4);
    let mut genome = Genome::random(&mut rng);
    genome.nodes = 3;
    genome.inner_neurons = 4;
    // sensor 2 -> inner 1 ; inner 1 -> inner 3 ; inner 3 -> action 5 ; inner 2 -> inner 0 (dead end)
    let g = |src_inner: bool, src: u32, sink_action: bool, sink: u32, w: i16| Gene {
        data: (u32::from(src_inner) << 31) | (src << 24) | (u32::from(sink_action) << 23) | (sink << 16) | (w as u16) as u32,
    };
    genome.genes = vec![
        g(false, 2, false, 1, 100),
        g(true, 1, false, 3, -200),
        g(true, 3, true, 5, 300),
        g(true, 2, false, 0, 400),
        g(true, 1, false, 1, 500),
    ];
    let brain = Brain::from_genome(&genome);
    // sensors 0..28, inners 28..32, actions 32..
    assert_eq!(brain.synapse_count(), 3);
    assert_eq!(brain.kinds(), vec![0u8, 1, 1, 2]);
    assert_eq!(brain.labels(), vec!["podobní".to_string(), "H2".to_string(), "H4".to_string(), "západ".to_string()]);
    assert_eq!(brain.wires(), vec![(0usize, 1usize, 100i16), (1, 2, -200), (2, 3, 300)]);
}

#[test]
fn port_labels() {
    assert_eq!(sensor_label(0), "pozice X");
    assert_eq!(sensor_label(14), "vůně Δ");
    assert_eq!(sensor_label(15), "jídlo vpřed");
    assert_eq!(sensor_label(16), "jídlo stranou");
    assert_eq!(sensor_label(17), "kin L");
    assert_eq!(sensor_label(20), "dotek L");
    assert_eq!(sensor_label(24), "energie");
    assert_eq!(sensor_label(25), "bolest");
    assert_eq!(sensor_label(26), "sval/smysl");
    assert_eq!(sensor_label(40), "sval/smysl");
    assert_eq!(action_label(11), "útok");
    assert_eq!(action_label(14), "růst");
    assert_eq!(action_label(15), "sval");
}

#[test]
fn listed_neurons_name_their_ports() {
    let mut rng = StdRng::seed_from_u64(4);
    let mut genome = Genome::random(&mut rng);
    genome.nodes = 3;
    genome.inner_neurons = 4;
    // sensor 2 -> inner 1 -> action 5
    genome.genes = vec![
        Gene { data: (2 << 24) | (1 << 16) | 100 },
        Gene { data: (1 << 31) | (1 << 24) | (1 << 23) | (5 << 16) | 300 },
    ];
    let brain = Brain::from_genome(&genome);
    assert_eq!(brain.port_counts(), (28, 4, 17));
    assert_eq!(brain.ports(), vec![2, 29, 37]);
}

#[test]
fn birth_weights_match_innate_not_learned() {
    let genome = wired(8000, true);
    let lived = Brain::from_genome(&genome);
    assert!(lived.synapse_count() > 0);
    let innate = lived.wires()[0].2;
    assert!((innate as f32 / 8000.0 - 1.0).abs() < 1e-5);
    // However the wiring of one body is used, a newborn of the same genome
    // starts from the genetic weight again.
    let born = Brain::from_genome(&genome);
    assert_eq!(born.wires()[0].2, innate);
    assert_eq!(born.wires(), lived.wires());
}
