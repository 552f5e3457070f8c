use aether::genome::{offspring_generation, Gene, Genome, GENOME_LENGTH, INNER_NEURONS};
use rand::rngs::StdRng;
use rand::SeedableRng;

#[test]
fn gene_fields_and_weight_scale() {
    let mut data = 0u32;
    data |= 1 << 31;
    data |= 5 << 24;
    data |= 1 << 23;
    data |= 3 << 16;
    data |= (-8000i16 as u16) as u32;
    let gene = Gene { data };
    assert_eq!(gene.source_type(), 1);
    assert_eq!(gene.source_id(), 5);
    assert_eq!(gene.sink_type(), 1);
    assert_eq!(gene.sink_id(), 3);
    let weight = gene.weight_raw() as f32 / 8000.0;
    assert!((weight + 1.0).abs() < 1e-5);
    let top = Gene { data: 32767 }.weight_raw() as f32 / 8000.0;
    assert!((top - 32767.0 / 8000.0).abs() < 1e-5);
}

#[test]
fn gene_fields_of_an_all_ones_word() {
    let gene = Gene { data: u32::MAX };
    assert_eq!(gene.source_type(), 1);
    assert_eq!(gene.source_id(), 127);
    assert_eq!(gene.sink_type(), 1);
    assert_eq!(gene.sink_id(), 127);
    assert_eq!(gene.weight_raw(), -1);
    assert_eq!(Gene { data: 0x0000_8000 }.weight_raw(), i16::MIN);
    assert_eq!(Gene { data: 0x7f00_0000 }.source_type(), 0);
}

#[test]
fn port_counts_follow_body_length() {
    let mut rng = StdRng::seed_from_u64(1);
    let mut genome = Genome::random(&mut rng);
    genome.nodes = 4;
    assert_eq!(genome.sensor_count(), 26 + 3);
    assert_eq!(genome.action_count(), 15 + 3);
    genome.inner_neurons = 0;
    assert_eq!(genome.inner_count(), 1);
    genome.inner_neurons = 200;
    assert_eq!(genome.inner_count(), 127);
}

#[test]
fn random_founder_shape() {
    let mut rng = StdRng::seed_from_u64(7);
    for _ in 0..20 {
        let g = Genome::random(&mut rng);
        assert!((3..=7).contains(&g.nodes));
        assert_eq!(g.root_nodes, g.nodes);
        assert_eq!(g.genes.len(), GENOME_LENGTH);
        assert_eq!(g.root_genes, g.genes);
        assert_eq!(g.inner_neurons, INNER_NEURONS);
        assert_eq!(g.generation, 0);
    }
}

#[test]
fn resize_clamps_and_keeps_prefix() {
    let mut rng = StdRng::seed_from_u64(2);
    let mut g = Genome::random(&mut rng);
    let before = g.genes.clone();
    g.resize_genes(0, &mut rng);
    assert_eq!(g.genes.len(), 2);
    assert_eq!(&g.genes[..], &before[..2]);
    g.resize_genes(5000, &mut rng);
    assert_eq!(g.genes.len(), 1000);
    assert_eq!(&g.genes[..2], &before[..2]);
}

#[test]
fn crossover_cuts_once() {
    let mut rng = StdRng::seed_from_u64(11);
    let mut a = Genome::random(&mut rng);
    let mut b = Genome::random(&mut rng);
    a.genes = (0..10).map(|i| Gene { data: i }).collect();
    b.genes = (100..106).map(|i| Gene { data: i }).collect();
    a.generation = 3;
    b.generation = 5;
    for _ in 0..30 {
        let c = a.crossover(&b, &mut rng);
        assert_eq!(c.genes.len(), 10);
        assert_eq!(c.generation, 5);
        assert_eq!(c.root_genes, b.root_genes);
        let cut = (0..=6).find(|&k| (k..6).all(|i| c.genes[i] == b.genes[i]) && (0..k).all(|i| c.genes[i] == a.genes[i]));
        assert!(cut.is_some());
        assert_eq!(&c.genes[6..], &a.genes[6..]);
        assert!(c.nodes == a.nodes || c.nodes == b.nodes);
    }
}

#[test]
fn noticeable_mutation_flips_a_few_bits() {
    let mut rng = StdRng::seed_from_u64(5);
    for _ in 0..30 {
        let mut g = Genome::random(&mut rng);
        let before = g.genes.clone();
        g.mutate_noticeable(&mut rng);
        assert_eq!(g.genes.len(), before.len());
        let flipped: u32 = g.genes.iter().zip(before.iter()).map(|(x, y)| (x.data ^ y.data).count_ones()).sum();
        assert!((2..=5).contains(&flipped));
        assert_eq!(g.root_genes, before);
    }
}

#[test]
fn mutation_keeps_lineage_and_bounds() {
    let mut rng = StdRng::seed_from_u64(9);
    let mut g = Genome::random(&mut rng);
    for _ in 0..200 {
        let len = g.genes.len();
        let inner = g.inner_neurons;
        let root = g.root_genes.clone();
        g.mutate(&mut rng);
        assert_eq!(g.root_genes, root);
        assert!(g.genes.len() == len || g.genes.len() == (len + 2).clamp(8, 1000) || g.genes.len() == len.saturating_sub(2).clamp(8, 1000));
        assert!((1..=127).contains(&g.inner_neurons));
        assert!((inner as i32 - g.inner_neurons as i32).abs() <= 1);
        assert!((2..=12).contains(&g.nodes));
    }
}

#[test]
fn distance_parts_count_bits_and_weights() {
    let mut rng = StdRng::seed_from_u64(3);
    let mut a = Genome::random(&mut rng);
    let mut b = a.clone();
    a.genes = vec![Gene { data: 0x0000_0010 }, Gene { data: 0xffff_0000 }];
    b.genes = vec![Gene { data: 0x0000_0000 }, Gene { data: 0xffff_ffff }, Gene { data: 5 }];
    let d = a.distance_parts(&b);
    assert_eq!(d.genes, 2);
    assert_eq!(d.bits, 1 + 16);
    // weights: 16 vs 0, and 0 vs -1
    assert_eq!(d.weight_gap, 16 + 1);
    b.root_genes = b.genes.clone();
    let drift = b.drift_parts();
    assert_eq!(drift.bits, 0);
    assert_eq!(drift.weight_gap, 0);
    assert_eq!(drift.genes, 3);
}

#[test]
fn noticeable_mutation_of_a_single_gene_flips_distinct_bits() {
    let mut rng = StdRng::seed_from_u64(11);
    for _ in 0..50 {
        let mut g = Genome::random(&mut rng);
        g.genes = vec![Gene { data: 0 }];
        g.mutate_noticeable(&mut rng);
        let ones = g.genes[0].data.count_ones();
        assert!((2..=5).contains(&ones));
    }
}

#[test]
fn applied_mutation_follows_the_draws() {
    let mut rng = StdRng::seed_from_u64(12);
    let mut g = Genome::random(&mut rng);
    g.genes = vec![Gene { data: 0b1010 }; 9];
    g.nodes = 12;
    g.inner_neurons = 1;
    let root = g.root_genes.clone();
    let mut masks = vec![0u32; 9];
    masks[0] = 0b0110;
    masks[8] = 1 << 31;
    g.apply_mutation(&masks, Some(false), Some(true), Some(true), &vec![7, 8, 9]);
    assert_eq!(g.genes.len(), 11);
    assert_eq!(g.genes[0].data, 0b1100);
    assert_eq!(g.genes[1].data, 0b1010);
    assert_eq!(g.genes[8].data, 0b1010 | (1 << 31));
    assert_eq!(g.genes[9].data, 7);
    assert_eq!(g.genes[10].data, 8);
    assert_eq!(g.inner_neurons, 1);
    assert_eq!(g.nodes, 12);
    assert_eq!(g.root_genes, root);
    // Shrinking below eight genes is held at eight, growing the pack.
    let mut h = Genome::random(&mut rng);
    h.genes = vec![Gene { data: 1 }; 3];
    let masks = vec![0u32; 3];
    h.apply_mutation(&masks, None, Some(false), Some(false), &vec![5, 5, 5, 5, 5]);
    assert_eq!(h.genes.iter().map(|x| x.data).collect::<Vec<_>>(), vec![1, 1, 1, 5, 5, 5, 5, 5]);
    let mut k = Genome::random(&mut rng);
    let masks = vec![0u32; k.genes.len()];
    k.apply_mutation(&masks, None, None, Some(false), &vec![]);
    assert_eq!(k.genes.len(), 126);
}

#[test]
fn applied_noticeable_mutation_toggles_in_order() {
    let mut rng = StdRng::seed_from_u64(13);
    let mut g = Genome::random(&mut rng);
    g.genes = vec![Gene { data: 0 }, Gene { data: 0xff }];
    g.nodes = 2;
    g.apply_noticeable(&vec![(1, 0), (0, 31), (1, 8)], Some(false));
    assert_eq!(g.genes[0].data, 1 << 31);
    assert_eq!(g.genes[1].data, 0x1fe);
    assert_eq!(g.nodes, 2);
}

#[test]
fn offspring_are_one_generation_on() {
    assert_eq!(offspring_generation(3, None), 4);
    assert_eq!(offspring_generation(3, Some(7)), 8);
    assert_eq!(offspring_generation(9, Some(7)), 10);
}
