//! Packed connection genes and the integer genome that carries them.

use rand::rngs::StdRng;
use vstd::prelude::*;
use crate::chance::{chance, random_between, random_word};

verus! {

/// Fixed sensory ports. Muscle-length senses follow, one per body spring.
pub const SENSOR_BASE: usize = 26;
/// Fixed action ports. Muscle ports follow, one per body spring.
pub const ACTION_BASE: usize = 15;

/// One connection, packed into 32 bits.
///
/// ```text
/// 31        source type   0 = sensor, 1 = inner
/// 30..24    source id     modulo the count of that type
/// 23        sink type     0 = inner,  1 = action
/// 22..16    sink id       modulo the count of that type
/// 15..0     weight        i16, later divided by 8000
/// ```
#[derive(Clone, Copy, Debug, PartialEq, Eq)]
pub struct Gene {
    pub data: u32,
}

/// Bit 31 of a gene word.
pub open spec fn spec_source_type(data: u32) -> u32 {
    data / 0x8000_0000
}

/// Bits 30..24 of a gene word.
pub open spec fn spec_source_id(data: u32) -> u32 {
    ((data / 0x0100_0000) % 128) as u32
}

/// Bit 23 of a gene word.
pub open spec fn spec_sink_type(data: u32) -> u32 {
    ((data / 0x0080_0000) % 2) as u32
}

/// Bits 22..16 of a gene word.
pub open spec fn spec_sink_id(data: u32) -> u32 {
    ((data / 0x0001_0000) % 128) as u32
}

/// The low 16 bits of a gene word read as a two's-complement number.
pub open spec fn spec_weight_raw(data: u32) -> int {
    let low = data % 0x1_0000;
    if low >= 0x8000 { low - 0x1_0000 } else { low as int }
}

impl Gene {
    pub fn source_type(self) -> (r: u32)
        ensures
            r == spec_source_type(self.data),
            r <= 1,
    {
        let d = self.data;
        assert((d >> 31u32) & 1u32 == d / 0x8000_0000) by (bit_vector);
        assert(d / 0x8000_0000 <= 1) by (bit_vector);
        (d >> 31u32) & 1u32
    }

    pub fn source_id(self) -> (r: u32)
        ensures
            r == spec_source_id(self.data),
            r < 128,
    {
        let d = self.data;
        assert((d >> 24u32) & 0x7fu32 == (d / 0x0100_0000) % 128) by (bit_vector);
        (d >> 24u32) & 0x7fu32
    }

    pub fn sink_type(self) -> (r: u32)
        ensures
            r == spec_sink_type(self.data),
            r <= 1,
    {
        let d = self.data;
        assert((d >> 23u32) & 1u32 == (d / 0x0080_0000) % 2) by (bit_vector);
        (d >> 23u32) & 1u32
    }

    pub fn sink_id(self) -> (r: u32)
        ensures
            r == spec_sink_id(self.data),
            r < 128,
    {
        let d = self.data;
        assert((d >> 16u32) & 0x7fu32 == (d / 0x0001_0000) % 128) by (bit_vector);
        (d >> 16u32) & 0x7fu32
    }

    pub fn weight_raw(self) -> (r: i16)
        ensures
            r as int == spec_weight_raw(self.data),
    {
        let d = self.data;
        let r = d as i16;
        assert(d as i16 as int == (if d % 0x1_0000 >= 0x8000 { d % 0x1_0000 - 0x1_0000 } else { (d % 0x1_0000) as int })) by (bit_vector);
        r
    }
}

} // verus!

verus! {

/// Inner neurons addressed by a fresh genome (genes take ids modulo this).
pub const INNER_NEURONS: u8 = 16;
/// Genes in a fresh genome.
pub const GENOME_LENGTH: usize = 128;
/// Longest gene pack a genome may grow to.
pub const GENOME_LENGTH_MAX: usize = 1000;
/// Body-chain length bounds (segments = nodes).
pub const NODES_MIN: u8 = 2;
pub const NODES_MAX: u8 = 12;
pub const NODES_BIRTH_MIN: u8 = 3;
pub const NODES_BIRTH_MAX: u8 = 7;

/// The heritable integer part of an organism: body length, the gene pack and
/// the founder snapshot of both, the inner-neuron budget and the generation.
#[derive(Clone, Debug)]
pub struct Genome {
    /// Body nodes (the chain has `nodes - 1` springs).
    pub nodes: u8,
    /// Founder body length from generation 0 of this lineage.
    pub root_nodes: u8,
    pub genes: Vec<Gene>,
    /// Founder gene pack from generation 0 (for drift against the ancestor).
    pub root_genes: Vec<Gene>,
    /// Inner neurons available to genes.
    pub inner_neurons: u8,
    pub generation: u32,
}

/// Number of sensory ports of a body with `nodes` nodes.
pub open spec fn spec_sensor_count(nodes: u8) -> int {
    SENSOR_BASE + nodes - 1
}

/// Number of action ports of a body with `nodes` nodes.
pub open spec fn spec_action_count(nodes: u8) -> int {
    ACTION_BASE + nodes - 1
}

/// Inner neurons a genome's wiring actually uses: the budget clamped to `1..=127`.
pub open spec fn spec_inner_count(inner_neurons: u8) -> int {
    if inner_neurons < 1 { 1 } else if inner_neurons > 127 { 127 } else { inner_neurons as int }
}

impl Genome {
    pub fn sensor_count(&self) -> (r: usize)
        ensures
            r == spec_sensor_count(self.nodes),
    {
        SENSOR_BASE + self.nodes as usize - 1
    }

    pub fn action_count(&self) -> (r: usize)
        ensures
            r == spec_action_count(self.nodes),
    {
        ACTION_BASE + self.nodes as usize - 1
    }

    pub fn inner_count(&self) -> (r: usize)
        ensures
            r == spec_inner_count(self.inner_neurons),
    {
        if self.inner_neurons < 1 {
            1
        } else if self.inner_neurons > 127 {
            127
        } else {
            self.inner_neurons as usize
        }
    }
}

} // verus!

verus! {

/// `x` clamped into `lo..=hi` (`lo <= hi`).
pub open spec fn clamped(x: int, lo: int, hi: int) -> int {
    if x < lo { lo } else if x > hi { hi } else { x }
}

/// Gene pack length after `resize_genes(len)`: `len` clamped to `2..=1000`.
pub open spec fn resized_len(len: int) -> int {
    clamped(len, 2, GENOME_LENGTH_MAX as int)
}

/// The first `n` genes of `a` and `b` agree.
pub open spec fn same_prefix(a: Seq<Gene>, b: Seq<Gene>, n: int) -> bool {
    forall|i: int| 0 <= i < n ==> #[trigger] a[i] == #[trigger] b[i]
}

/// Gene word `data` with bit `b` toggled.
pub open spec fn toggle_bit(data: u32, b: int) -> u32 {
    data ^ (1u32 << (b as u32))
}

/// `genes` after toggling, in order, bit `f.1` of gene `f.0` for each `f` of `flips`.
pub open spec fn toggled(genes: Seq<Gene>, flips: Seq<(int, int)>) -> Seq<Gene>
    decreases flips.len(),
{
    if flips.len() == 0 {
        genes
    } else {
        let g = toggled(genes, flips.drop_last());
        let f = flips.last();
        g.update(f.0, Gene { data: toggle_bit(g[f.0].data, f.1) })
    }
}

/// Set bits of a word.
pub open spec fn bit_count(x: nat) -> nat
    decreases x,
{
    if x == 0 { 0 } else { (x % 2) + bit_count(x / 2) }
}

/// Absolute difference of the raw weights of two genes.
pub open spec fn weight_gap(a: Gene, b: Gene) -> nat {
    let d = spec_weight_raw(a.data) - spec_weight_raw(b.data);
    (if d < 0 { -d } else { d }) as nat
}

/// Differing bits over the first `n` gene pairs.
pub open spec fn bits_apart(a: Seq<Gene>, b: Seq<Gene>, n: int) -> nat
    decreases n,
{
    if n <= 0 { 0 } else { bits_apart(a, b, n - 1) + bit_count((a[n - 1].data ^ b[n - 1].data) as nat) }
}

/// Sum of raw weight differences over the first `n` gene pairs.
pub open spec fn weights_apart(a: Seq<Gene>, b: Seq<Gene>, n: int) -> nat
    decreases n,
{
    if n <= 0 { 0 } else { weights_apart(a, b, n - 1) + weight_gap(a[n - 1], b[n - 1]) }
}

/// The integer ingredients of the distance between two gene packs: the number
/// of compared gene pairs, how many bits differ over them, and the sum of the
/// raw weight differences. The distance itself is
/// `0.65 * bits / (32 * genes) + 0.35 * weight_gap / (8000 * 8 * genes)`.
#[derive(Clone, Copy, Debug, PartialEq, Eq)]
pub struct GeneDifference {
    pub genes: usize,
    pub bits: u128,
    pub weight_gap: u128,
}

fn popcount(x: u32) -> (r: u32)
    ensures
        r == bit_count(x as nat),
        r <= 32,
{
    let mut y = x;
    let mut c: u32 = 0;
    proof {
        reveal_with_fuel(pow2, 33);
        assert(pow2(32) == 0x1_0000_0000);
        lemma_bit_count_bound(x as nat, 32);
    }
    while y > 0
        invariant
            c + bit_count(y as nat) == bit_count(x as nat),
            bit_count(x as nat) <= 32,
        decreases y,
    {
        c = c + y % 2;
        y = y / 2;
    }
    c
}

spec fn pow2(k: nat) -> nat
    decreases k,
{
    if k == 0 { 1 } else { 2 * pow2((k - 1) as nat) }
}

proof fn lemma_bit_count_bound(x: nat, k: nat)
    requires
        x < pow2(k),
    ensures
        bit_count(x) <= k,
    decreases k,
{
    if x > 0 {
        if k == 0 {
        } else {
            lemma_bit_count_bound(x / 2, (k - 1) as nat);
        }
    }
}

/// Distance does not depend on the order of the two packs: over the first
/// `n` gene pairs, the differing bits and the summed weight differences are
/// the same either way round.
pub proof fn law_distance_symmetric(a: Seq<Gene>, b: Seq<Gene>, n: int)
    requires
        0 <= n <= a.len(),
        n <= b.len(),
    ensures
        weights_apart(a, b, n) == weights_apart(b, a, n),
        bits_apart(a, b, n) == bits_apart(b, a, n),
    decreases n,
{
    if n > 0 {
        law_distance_symmetric(a, b, n - 1);
        let x = a[n - 1].data;
        let y = b[n - 1].data;
        assert(x ^ y == y ^ x) by (bit_vector);
    }
}

/// Every compared gene pair adds the absolute difference of its raw weights,
/// and no pair takes anything away: the summed weight difference is at least
/// `|w(a[k]) - w(b[k])|` for each pair `k`, and grows with `n`.
pub proof fn law_weight_gap_counts_each_pair(a: Seq<Gene>, b: Seq<Gene>, n: int, k: int)
    requires
        0 <= k < n <= a.len(),
        n <= b.len(),
    ensures
        weights_apart(a, b, n) >= (if spec_weight_raw(a[k].data) < spec_weight_raw(b[k].data) {
            spec_weight_raw(b[k].data) - spec_weight_raw(a[k].data)
        } else {
            spec_weight_raw(a[k].data) - spec_weight_raw(b[k].data)
        }),
        weights_apart(a, b, n) >= weights_apart(a, b, k),
        weights_apart(a, b, k + 1) == weights_apart(a, b, k) + (if spec_weight_raw(a[k].data) < spec_weight_raw(
            b[k].data,
        ) {
            spec_weight_raw(b[k].data) - spec_weight_raw(a[k].data)
        } else {
            spec_weight_raw(a[k].data) - spec_weight_raw(b[k].data)
        }),
    decreases n,
{
    if n > k + 1 {
        law_weight_gap_counts_each_pair(a, b, n - 1, k);
    }
}

/// A gene pack is at distance zero from itself.
pub proof fn law_distance_to_itself(a: Seq<Gene>, n: int)
    requires
        0 <= n <= a.len(),
    ensures
        weights_apart(a, a, n) == 0,
        bits_apart(a, a, n) == 0,
    decreases n,
{
    if n > 0 {
        law_distance_to_itself(a, n - 1);
        let x = a[n - 1].data;
        assert(x ^ x == 0) by (bit_vector);
    }
}

/// Compare two gene packs over their common length (at least one gene).
fn gene_difference(a: &Vec<Gene>, b: &Vec<Gene>) -> (r: GeneDifference)
    requires
        a.len() >= 1,
        b.len() >= 1,
    ensures
        r.genes == if a.len() < b.len() { a.len() } else { b.len() },
        r.bits == bits_apart(a@, b@, r.genes as int),
        r.weight_gap == weights_apart(a@, b@, r.genes as int),
{
    let n = if a.len() < b.len() { a.len() } else { b.len() };
    let mut bits: u128 = 0;
    let mut gap: u128 = 0;
    for i in 0..n
        invariant
            n <= a.len(),
            n <= b.len(),
            bits == bits_apart(a@, b@, i as int),
            gap == weights_apart(a@, b@, i as int),
            bits <= 32 * i,
            gap <= 65536 * i,
    {
        let c = popcount(a[i].data ^ b[i].data);
        let wa = a[i].weight_raw() as i32;
        let wb = b[i].weight_raw() as i32;
        let d: i32 = wa - wb;
        let ad: u128 = if d < 0 { (-d) as u128 } else { d as u128 };
        bits = bits + c as u128;
        gap = gap + ad;
    }
    GeneDifference { genes: n, bits, weight_gap: gap }
}

impl Genome {
    /// Distance ingredients between this genome's genes and `other`'s.
    pub fn distance_parts(&self, other: &Genome) -> (r: GeneDifference)
        requires
            self.genes.len() >= 1,
            other.genes.len() >= 1,
        ensures
            r.genes == if self.genes.len() < other.genes.len() { self.genes.len() } else { other.genes.len() },
            r.bits == bits_apart(self.genes@, other.genes@, r.genes as int),
            r.weight_gap == weights_apart(self.genes@, other.genes@, r.genes as int),
    {
        gene_difference(&self.genes, &other.genes)
    }

    /// Distance ingredients between this genome's genes and its founder genes.
    pub fn drift_parts(&self) -> (r: GeneDifference)
        requires
            self.genes.len() >= 1,
            self.root_genes.len() >= 1,
        ensures
            r.genes == if self.genes.len() < self.root_genes.len() { self.genes.len() } else { self.root_genes.len() },
            r.bits == bits_apart(self.genes@, self.root_genes@, r.genes as int),
            r.weight_gap == weights_apart(self.genes@, self.root_genes@, r.genes as int),
    {
        gene_difference(&self.genes, &self.root_genes)
    }
}

} // verus!

verus! {

/// The genome after one crossover step, for a given coin for the body length,
/// coin for the inner-neuron budget and cut point.
pub open spec fn crossed_genes(mine: Seq<Gene>, theirs: Seq<Gene>, cut: int) -> Seq<Gene> {
    let n = if mine.len() < theirs.len() { mine.len() as int } else { theirs.len() as int };
    Seq::new(mine.len(), |i: int| if cut <= i < n { theirs[i] } else { mine[i] })
}

/// `v` after an optional one-step move (`Some(true)` up, `Some(false)`
/// down), kept in `lo..=hi`.
pub open spec fn stepped(v: int, step: Option<bool>, lo: int, hi: int) -> int {
    match step {
        None => v,
        Some(up) => clamped(if up { v + 1 } else { v - 1 }, lo, hi),
    }
}

/// Gene pack length `n` after an optional drift by two (`Some(true)` longer,
/// `Some(false)` shorter), kept in `8..=1000`.
pub open spec fn drifted_len(n: int, drift: Option<bool>) -> int {
    match drift {
        None => n,
        Some(up) => clamped(if up { n + 2 } else { n - 2 }, 8, GENOME_LENGTH_MAX as int),
    }
}

/// Each gene word XORed with its mask.
pub open spec fn flipped(genes: Seq<Gene>, masks: Seq<u32>) -> Seq<Gene> {
    Seq::new(genes.len(), |i: int| Gene { data: genes[i].data ^ masks[i] })
}

/// The flipped genes after the length drift: cut to the new length, or
/// followed by genes made of the first `words`.
pub open spec fn drifted_genes(genes: Seq<Gene>, masks: Seq<u32>, drift: Option<bool>, words: Seq<u32>) -> Seq<Gene> {
    let f = flipped(genes, masks);
    let m = drifted_len(genes.len() as int, drift);
    if m <= genes.len() {
        f.take(m)
    } else {
        f + Seq::new((m - genes.len()) as nat, |k: int| Gene { data: words[k] })
    }
}

/// `new` is `old` after one mutation pass with the given bit masks, budget
/// step, body-length step, length drift and new gene words.
pub open spec fn mutation_of(
    new: Genome,
    old: Genome,
    masks: Seq<u32>,
    inner: Option<bool>,
    node: Option<bool>,
    drift: Option<bool>,
    words: Seq<u32>,
) -> bool {
    &&& new.genes@ == drifted_genes(old.genes@, masks, drift, words)
    &&& new.inner_neurons == stepped(old.inner_neurons as int, inner, 1, 127)
    &&& new.nodes == stepped(old.nodes as int, node, NODES_MIN as int, NODES_MAX as int)
    &&& new.root_nodes == old.root_nodes
    &&& new.root_genes@ == old.root_genes@
    &&& new.generation == old.generation
}

/// A mutation pass keeps every gene in its place: the first genes are the
/// old genes at the same positions, each XORed with its own mask; genes past
/// the old length are the new words in order; and the pack's length is the
/// old one, or two more or two fewer kept in `8..=1000`, as the drift says.
pub proof fn law_mutation_keeps_places(
    new: Genome,
    old: Genome,
    masks: Seq<u32>,
    inner: Option<bool>,
    node: Option<bool>,
    drift: Option<bool>,
    words: Seq<u32>,
)
    requires
        masks.len() == old.genes.len(),
        mutation_of(new, old, masks, inner, node, drift, words),
    ensures
        new.genes.len() == (match drift {
            None => old.genes.len() as int,
            Some(up) => {
                let x = if up { old.genes.len() + 2 } else { old.genes.len() - 2 };
                if x < 8 { 8 } else if x > 1000 { 1000 } else { x }
            },
        }),
        forall|k: int|
            0 <= k < new.genes.len() && k < old.genes.len() ==> #[trigger] new.genes@[k].data == old.genes@[k].data
                ^ masks[k],
        forall|k: int| old.genes.len() <= k < new.genes.len() ==> #[trigger] new.genes@[k].data == words[k - old.genes.len()],
{
    let f = flipped(old.genes@, masks);
    let m = drifted_len(old.genes.len() as int, drift);
    assert forall|k: int| 0 <= k < new.genes.len() && k < old.genes.len() implies #[trigger] new.genes@[k].data
        == old.genes@[k].data ^ masks[k] by {
        assert(new.genes@[k] == f[k]);
    }
    assert forall|k: int| old.genes.len() <= k < new.genes.len() implies #[trigger] new.genes@[k].data
        == words[k - old.genes.len()] by {
        assert(m > old.genes.len());
    }
}

fn drift_len(n: usize, up: bool) -> (m: usize)
    ensures
        m == drifted_len(n as int, Some(up)),
{
    if up {
        if n >= GENOME_LENGTH_MAX - 2 { GENOME_LENGTH_MAX } else if n + 2 < 8 { 8 } else { n + 2 }
    } else {
        if n < 10 { 8 } else if n - 2 > GENOME_LENGTH_MAX { GENOME_LENGTH_MAX } else { n - 2 }
    }
}

fn step_clamped(v: u8, up: bool, lo: u8, hi: u8) -> (r: u8)
    requires
        lo <= hi,
    ensures
        r == clamped(if up { v + 1 } else { v - 1 }, lo as int, hi as int),
{
    let x: i32 = if up { v as i32 + 1 } else { v as i32 - 1 };
    if x < lo as i32 {
        lo
    } else if x > hi as i32 {
        hi
    } else {
        x as u8
    }
}

impl Genome {
    /// A fresh founder: 3 to 7 body nodes, 128 random genes, 16 inner
    /// neurons, generation 0; the founder snapshot equals the genome.
    pub fn random(rng: &mut StdRng) -> (g: Genome)
        ensures
            NODES_BIRTH_MIN <= g.nodes <= NODES_BIRTH_MAX,
            g.root_nodes == g.nodes,
            g.genes.len() == GENOME_LENGTH,
            g.root_genes@ == g.genes@,
            g.inner_neurons == INNER_NEURONS,
            g.generation == 0,
    {
        let nodes = random_between(rng, NODES_BIRTH_MIN as usize, NODES_BIRTH_MAX as usize) as u8;
        let mut genome = Genome {
            nodes,
            root_nodes: nodes,
            genes: Vec::new(),
            root_genes: Vec::new(),
            inner_neurons: INNER_NEURONS,
            generation: 0,
        };
        genome.resize_genes(GENOME_LENGTH, rng);
        let mut root: Vec<Gene> = Vec::new();
        let n = genome.genes.len();
        for i in 0..n
            invariant
                n == genome.genes.len(),
                root@ == genome.genes@.take(i as int),
        {
            root.push(genome.genes[i]);
            assert(root@ =~= genome.genes@.take(i + 1));
        }
        assert(root@ =~= genome.genes@);
        genome.root_genes = root;
        genome
    }

    /// Cut or extend the gene pack to `len` clamped to `2..=1000`. Kept genes
    /// stay; new genes are random words.
    pub fn resize_genes(&mut self, len: usize, rng: &mut StdRng)
        ensures
            final(self).genes.len() == resized_len(len as int),
            same_prefix(final(self).genes@, old(self).genes@, if old(self).genes.len() < final(self).genes.len() { old(self).genes.len() as int } else { final(self).genes.len() as int }),
            final(self).nodes == old(self).nodes,
            final(self).root_nodes == old(self).root_nodes,
            final(self).root_genes == old(self).root_genes,
            final(self).inner_neurons == old(self).inner_neurons,
            final(self).generation == old(self).generation,
    {
        let len = if len < 2 { 2 } else if len > GENOME_LENGTH_MAX { GENOME_LENGTH_MAX } else { len };
        if self.genes.len() > len {
            self.genes.truncate(len);
        }
        let ghost kept = self.genes@;
        while self.genes.len() < len
            invariant
                len <= GENOME_LENGTH_MAX,
                self.genes.len() <= len || self.genes.len() == kept.len(),
                kept.len() <= self.genes.len(),
                same_prefix(self.genes@, kept, kept.len() as int),
                self.nodes == old(self).nodes,
                self.root_nodes == old(self).root_nodes,
                self.root_genes == old(self).root_genes,
                self.inner_neurons == old(self).inner_neurons,
                self.generation == old(self).generation,
                kept.len() == if old(self).genes.len() > len { len as int } else { old(self).genes.len() as int },
                same_prefix(kept, old(self).genes@, kept.len() as int),
            decreases len - self.genes.len(),
        {
            let w = random_word(rng);
            self.genes.push(Gene { data: w });
        }
        proof {
            let m = if old(self).genes.len() < self.genes.len() { old(self).genes.len() as int } else { self.genes.len() as int };
            assert forall|i: int| 0 <= i < m implies #[trigger] self.genes@[i] == #[trigger] old(self).genes@[i] by {
                assert(self.genes@[i] == kept[i]);
                assert(kept[i] == old(self).genes@[i]);
            }
        }
    }

    /// Child of two parents. Body length and inner-neuron budget come from
    /// either parent; the genes before a random cut come from `self`, the
    /// genes from the cut up to the shorter pack's length from `other`; the
    /// founder snapshot is the one of the parent with the greater generation
    /// (of `self` on a tie); the generation is the greater one.
    pub fn crossover(&self, other: &Genome, rng: &mut StdRng) -> (child: Genome)
        ensures
            child.nodes == self.nodes || child.nodes == other.nodes,
            child.inner_neurons == self.inner_neurons || child.inner_neurons == other.inner_neurons,
            other.generation > self.generation ==> child.root_nodes == other.root_nodes && child.root_genes@ == other.root_genes@,
            other.generation <= self.generation ==> child.root_nodes == self.root_nodes && child.root_genes@ == self.root_genes@,
            child.generation == if self.generation < other.generation { other.generation } else { self.generation },
            exists|cut: int| 0 <= cut <= self.genes.len() && child.genes@ == crossed_genes(self.genes@, other.genes@, cut),
    {
        let nodes = if chance(rng, 1, 2) { self.nodes } else { other.nodes };
        let (root_nodes, root_genes) = if other.generation > self.generation {
            (other.root_nodes, copy_genes(&other.root_genes))
        } else {
            (self.root_nodes, copy_genes(&self.root_genes))
        };
        let inner_neurons = if chance(rng, 1, 2) { self.inner_neurons } else { other.inner_neurons };
        let mut genes = copy_genes(&self.genes);
        let n = if genes.len() < other.genes.len() { genes.len() } else { other.genes.len() };
        let cut = random_between(rng, 0, n);
        for i in cut..n
            invariant
                n <= genes.len(),
                n <= other.genes.len(),
                genes.len() == self.genes.len(),
                cut <= n,
                forall|k: int| 0 <= k < genes.len() ==> #[trigger] genes@[k] == if cut <= k < i { other.genes@[k] } else { self.genes@[k] },
        {
            genes.set(i, other.genes[i]);
        }
        let generation = if self.generation < other.generation { other.generation } else { self.generation };
        proof {
            assert(genes@ =~= crossed_genes(self.genes@, other.genes@, cut as int));
        }
        Genome { nodes, root_nodes, genes, root_genes, inner_neurons, generation }
    }

    /// The outcome of one mutation pass for given draws: gene `i` is XORed
    /// with `masks[i]`; the inner-neuron budget and the body length take
    /// their optional one-step moves; the gene pack takes its optional length
    /// drift, cutting the flipped genes or appending genes made of the first
    /// `words`. The founder snapshot and generation stay.
    pub fn apply_mutation(
        &mut self,
        masks: &Vec<u32>,
        inner_step: Option<bool>,
        node_step: Option<bool>,
        drift: Option<bool>,
        words: &Vec<u32>,
    )
        requires
            masks.len() == old(self).genes.len(),
            words.len() >= drifted_len(old(self).genes.len() as int, drift) - old(self).genes.len(),
        ensures
            mutation_of(*final(self), *old(self), masks@, inner_step, node_step, drift, words@),
            forall|k: int|
                0 <= k < final(self).genes.len() && k < old(self).genes.len() ==> #[trigger] final(self).genes@[k].data
                    == old(self).genes@[k].data ^ masks@[k],
            forall|k: int|
                old(self).genes.len() <= k < final(self).genes.len() ==> #[trigger] final(self).genes@[k].data
                    == words@[k - old(self).genes.len()],
    {
        let n = self.genes.len();
        for i in 0..n
            invariant
                n == self.genes.len() == masks.len() == old(self).genes.len(),
                self.root_nodes == old(self).root_nodes,
                self.root_genes == old(self).root_genes,
                self.generation == old(self).generation,
                self.inner_neurons == old(self).inner_neurons,
                self.nodes == old(self).nodes,
                forall|j: int| 0 <= j < i ==> #[trigger] self.genes[j].data == old(self).genes[j].data ^ masks[j],
                forall|j: int| i <= j < n ==> #[trigger] self.genes[j] == old(self).genes[j],
        {
            let data = self.genes[i].data ^ masks[i];
            self.genes.set(i, Gene { data });
        }
        assert forall|j: int| 0 <= j < n implies #[trigger] self.genes@[j] == flipped(old(self).genes@, masks@)[j] by {
            assert(self.genes[j].data == old(self).genes[j].data ^ masks[j]);
        }
        assert(self.genes@ =~= flipped(old(self).genes@, masks@));
        match inner_step {
            Some(up) => {
                self.inner_neurons = step_clamped(self.inner_neurons, up, 1, 127);
            },
            None => {},
        }
        match node_step {
            Some(up) => {
                self.nodes = step_clamped(self.nodes, up, NODES_MIN, NODES_MAX);
            },
            None => {},
        }
        match drift {
            Some(up) => {
                let m = drift_len(n, up);
                if m > n {
                    let ghost f = self.genes@;
                    for k in 0..m - n
                        invariant
                            n == f.len(),
                            m > n,
                            m == drifted_len(n as int, drift),
                            words.len() >= m - n,
                            self.inner_neurons == stepped(old(self).inner_neurons as int, inner_step, 1, 127),
                            self.nodes == stepped(old(self).nodes as int, node_step, NODES_MIN as int, NODES_MAX as int),
                            self.root_nodes == old(self).root_nodes,
                            self.root_genes == old(self).root_genes,
                            self.generation == old(self).generation,
                            self.genes@ == f + Seq::new(k as nat, |q: int| Gene { data: words[q] }),
                    {
                        self.genes.push(Gene { data: words[k] });
                        assert(self.genes@ =~= f + Seq::new((k + 1) as nat, |q: int| Gene { data: words[q] }));
                    }
                } else {
                    self.genes.truncate(m);
                }
            },
            None => {},
        }
        proof {
            assert(self.genes@ =~= drifted_genes(old(self).genes@, masks@, drift, words@));
            law_mutation_keeps_places(*self, *old(self), masks@, inner_step, node_step, drift, words@);
        }
    }

    /// One point-mutation pass on copy: each bit of each gene flips with
    /// probability 1/1000; with probability 1/50 the inner-neuron budget
    /// steps by one (up or down alike, kept in `1..=127`); with probability
    /// 7/100 the body length steps by one (kept in `2..=12`); with probability
    /// 3/200 the gene pack grows by two (chance 11/20) or shrinks by two, its
    /// length kept in `8..=1000`, new genes being random words. The outcome is
    /// `apply_mutation` for the drawn masks, steps, drift and words.
    pub fn mutate(&mut self, rng: &mut StdRng)
        ensures
            exists|masks: Seq<u32>, inner: Option<bool>, node: Option<bool>, drift: Option<bool>, words: Seq<u32>|
                masks.len() == old(self).genes.len() && #[trigger] mutation_of(
                    *final(self),
                    *old(self),
                    masks,
                    inner,
                    node,
                    drift,
                    words,
                ),
    {
        let n = self.genes.len();
        let mut masks: Vec<u32> = Vec::new();
        for i in 0..n
            invariant
                masks.len() == i,
        {
            let mut mask: u32 = 0;
            for bit in 0..32u32 {
                if chance(rng, 1, 1000) {
                    mask = mask ^ (1u32 << bit);
                }
            }
            masks.push(mask);
        }
        let inner_step = if chance(rng, 1, 50) { Some(chance(rng, 1, 2)) } else { None };
        let node_step = if chance(rng, 7, 100) { Some(chance(rng, 1, 2)) } else { None };
        let drift = if chance(rng, 3, 200) { Some(chance(rng, 11, 20)) } else { None };
        let mut words: Vec<u32> = Vec::new();
        match drift {
            Some(up) => {
                let m = drift_len(n, up);
                if m > n {
                    for k in 0..m - n
                        invariant
                            words.len() == k,
                    {
                        words.push(random_word(rng));
                    }
                }
            },
            None => {},
        }
        let ghost before = *self;
        self.apply_mutation(&masks, inner_step, node_step, drift, &words);
        proof {
            assert(mutation_of(*self, before, masks@, inner_step, node_step, drift, words@));
        }
    }

    /// Toggles, in order, bit `f.1` of gene `f.0` for each `f` of `flips`,
    /// then takes the optional one-step move of the body length. Nothing
    /// else changes.
    pub fn apply_noticeable(&mut self, flips: &Vec<(usize, u32)>, node_step: Option<bool>)
        requires
            forall|k: int| 0 <= k < flips.len() ==> (#[trigger] flips[k]).0 < old(self).genes.len() && flips[k].1 < 32,
        ensures
            final(self).genes@ == toggled(old(self).genes@, flip_pairs(flips@)),
            final(self).nodes == stepped(old(self).nodes as int, node_step, NODES_MIN as int, NODES_MAX as int),
            final(self).root_nodes == old(self).root_nodes,
            final(self).root_genes == old(self).root_genes,
            final(self).inner_neurons == old(self).inner_neurons,
            final(self).generation == old(self).generation,
    {
        let count = flips.len();
        for t in 0..count
            invariant
                count == flips.len(),
                self.genes.len() == old(self).genes.len(),
                forall|k: int| 0 <= k < flips.len() ==> (#[trigger] flips[k]).0 < old(self).genes.len() && flips[k].1 < 32,
                self.genes@ == toggled(old(self).genes@, flip_pairs(flips@).take(t as int)),
                self.root_nodes == old(self).root_nodes,
                self.root_genes == old(self).root_genes,
                self.inner_neurons == old(self).inner_neurons,
                self.generation == old(self).generation,
                self.nodes == old(self).nodes,
        {
            let (g, b) = flips[t];
            let data = self.genes[g].data ^ (1u32 << b);
            self.genes.set(g, Gene { data });
            proof {
                let fp = flip_pairs(flips@);
                assert(fp.take(t + 1).drop_last() =~= fp.take(t as int));
                assert(fp.take(t + 1).last() == (g as int, b as int));
                lemma_toggled_len(old(self).genes@, fp.take(t as int));
            }
        }
        assert(flip_pairs(flips@).take(count as int) =~= flip_pairs(flips@));
        match node_step {
            Some(up) => {
                self.nodes = step_clamped(self.nodes, up, NODES_MIN, NODES_MAX);
            },
            None => {},
        }
    }

    /// A mutation the user asks for: if there are genes, 2 to 5 distinct
    /// random bits of random genes toggle, so that exactly those bits change;
    /// with probability 1/4 the body length steps by one (up or down alike,
    /// kept in `2..=12`). The outcome is `apply_noticeable` for the drawn
    /// flips and step. Nothing else changes.
    pub fn mutate_noticeable(&mut self, rng: &mut StdRng)
        ensures
            final(self).genes.len() == old(self).genes.len(),
            old(self).genes.len() == 0 ==> final(self).genes@ == old(self).genes@,
            old(self).genes.len() > 0 ==> exists|flips: Seq<(int, int)>|
                2 <= flips.len() <= 5
                && (forall|k: int| 0 <= k < flips.len() ==> 0 <= #[trigger] flips[k].0 < old(self).genes.len() && 0 <= flips[k].1 < 32)
                && (forall|k1: int, k2: int| 0 <= k1 < k2 < flips.len() ==> #[trigger] flips[k1] != #[trigger] flips[k2])
                && final(self).genes@ == toggled(old(self).genes@, flips)
                && (forall|g: int, c: int|
                    0 <= g < old(self).genes.len() && 0 <= c < 32 ==> (#[trigger] bit_set(final(self).genes@[g].data, c)
                        != bit_set(old(self).genes@[g].data, c) <==> flips.contains((g, c)))),
            exists|step: Option<bool>| final(self).nodes == #[trigger] stepped(old(self).nodes as int, step, NODES_MIN as int, NODES_MAX as int),
            final(self).root_nodes == old(self).root_nodes,
            final(self).root_genes == old(self).root_genes,
            final(self).inner_neurons == old(self).inner_neurons,
            final(self).generation == old(self).generation,
    {
        let len = self.genes.len();
        let mut drawn: Vec<(usize, u32)> = Vec::new();
        if len > 0 {
            let count = random_between(rng, 2, 5);
            for t in 0..count
                invariant
                    len > 0,
                    count <= 5,
                    drawn.len() == t,
                    forall|k: int| 0 <= k < drawn.len() ==> (#[trigger] drawn[k]).0 < len && drawn[k].1 < 32,
                    forall|k1: int, k2: int|
                        0 <= k1 < k2 < drawn.len() ==> #[trigger] flip_pairs(drawn@)[k1] != #[trigger] flip_pairs(drawn@)[k2],
            {
                let g0 = random_between(rng, 0, len - 1);
                let b0 = random_between(rng, 0, 31) as u32;
                let (g, b) = free_flip(&drawn, len, g0, b0);
                let ghost before = drawn@;
                drawn.push((g, b));
                proof {
                    assert forall|k1: int, k2: int| 0 <= k1 < k2 < drawn.len() implies #[trigger] flip_pairs(drawn@)[k1]
                        != #[trigger] flip_pairs(drawn@)[k2] by {
                        assert(flip_pairs(drawn@)[k1] == flip_pairs(before)[k1]);
                        if k2 < before.len() {
                            assert(flip_pairs(drawn@)[k2] == flip_pairs(before)[k2]);
                        } else {
                            assert(flip_pairs(before).contains(flip_pairs(before)[k1]));
                        }
                    }
                }
            }
        }
        let node_step = if chance(rng, 1, 4) { Some(chance(rng, 1, 2)) } else { None };
        let ghost before = *self;
        self.apply_noticeable(&drawn, node_step);
        proof {
            let fp = flip_pairs(drawn@);
            lemma_toggled_len(before.genes@, fp);
            if len == 0 {
                assert(fp.len() == 0);
                assert(self.genes@ =~= before.genes@);
            } else {
                assert forall|g: int, c: int| 0 <= g < before.genes.len() && 0 <= c < 32 implies (#[trigger] bit_set(
                    self.genes@[g].data,
                    c,
                ) != bit_set(before.genes@[g].data, c) <==> fp.contains((g, c))) by {
                    lemma_toggled_bits(before.genes@, fp, g, c);
                }
                assert(forall|k: int| 0 <= k < fp.len() ==> 0 <= #[trigger] fp[k].0 < before.genes.len() && 0 <= fp[k].1 < 32);
            }
            assert(self.nodes == stepped(before.nodes as int, node_step, NODES_MIN as int, NODES_MAX as int));
        }
    }
}

/// Flips as integer pairs `(gene, bit)`.
pub open spec fn flip_pairs(v: Seq<(usize, u32)>) -> Seq<(int, int)> {
    v.map_values(|f: (usize, u32)| (f.0 as int, f.1 as int))
}

/// Bit `c` of word `x` is set.
pub open spec fn bit_set(x: u32, c: int) -> bool {
    (x >> (c as u32)) & 1u32 == 1u32
}

/// Place of bit `f.1` of gene `f.0` in the whole gene pack.
spec fn bit_pos(f: (int, int)) -> int {
    f.0 * 32 + f.1
}

/// Places of the drawn flips in the gene pack.
spec fn places(v: Seq<(usize, u32)>) -> Seq<int> {
    Seq::new(v.len(), |k: int| bit_pos((v[k].0 as int, v[k].1 as int)))
}

/// `p + t` counted round `total` places.
spec fn round(p: int, t: int, total: int) -> int {
    if p + t < total { p + t } else { p + t - total }
}

proof fn lemma_toggled_len(genes: Seq<Gene>, flips: Seq<(int, int)>)
    requires
        forall|k: int| 0 <= k < flips.len() ==> 0 <= #[trigger] flips[k].0 < genes.len(),
    ensures
        toggled(genes, flips).len() == genes.len(),
    decreases flips.len(),
{
    if flips.len() > 0 {
        lemma_toggled_len(genes, flips.drop_last());
    }
}

proof fn lemma_toggle_bit(x: u32, b: u32, c: u32)
    requires
        b < 32,
        c < 32,
    ensures
        bit_set(x ^ (1u32 << b), c as int) == (if b == c { !bit_set(x, c as int) } else { bit_set(x, c as int) }),
{
    assert(((((x ^ (1u32 << b)) >> c) & 1u32) == 1u32) == (if b == c { !(((x >> c) & 1u32) == 1u32) } else { ((x
        >> c) & 1u32) == 1u32 })) by (bit_vector)
        requires
            b < 32,
            c < 32,
    ;
    assert((c as int) as u32 == c);
}

/// Toggling distinct bits changes exactly those bits.
proof fn lemma_toggled_bits(genes: Seq<Gene>, flips: Seq<(int, int)>, g: int, c: int)
    requires
        forall|k: int| 0 <= k < flips.len() ==> 0 <= #[trigger] flips[k].0 < genes.len() && 0 <= flips[k].1 < 32,
        forall|k1: int, k2: int| 0 <= k1 < k2 < flips.len() ==> #[trigger] flips[k1] != #[trigger] flips[k2],
        0 <= g < genes.len(),
        0 <= c < 32,
    ensures
        bit_set(toggled(genes, flips)[g].data, c) == (bit_set(genes[g].data, c) != flips.contains((g, c))),
    decreases flips.len(),
{
    if flips.len() > 0 {
        let rest = flips.drop_last();
        let f = flips.last();
        lemma_toggled_bits(genes, rest, g, c);
        lemma_toggled_len(genes, rest);
        let t = toggled(genes, rest);
        if f.0 == g {
            lemma_toggle_bit(t[g].data, f.1 as u32, c as u32);
            assert(toggle_bit(t[g].data, f.1) == t[g].data ^ (1u32 << (f.1 as u32)));
        }
        if f == (g, c) {
            if rest.contains((g, c)) {
                let k = choose|k: int| 0 <= k < rest.len() && rest[k] == (g, c);
                assert(flips[k] == flips[flips.len() - 1]);
            }
        }
        assert(flips.contains((g, c)) == (rest.contains((g, c)) || f == (g, c))) by {
            if flips.contains((g, c)) && f != (g, c) {
                let k = choose|k: int| 0 <= k < flips.len() && flips[k] == (g, c);
                assert(rest[k] == (g, c));
            }
            if rest.contains((g, c)) {
                let k = choose|k: int| 0 <= k < rest.len() && rest[k] == (g, c);
                assert(flips[k] == (g, c));
            }
        }
    }
}

/// Whether bit `b` of gene `g` is among the drawn flips.
fn holds_flip(drawn: &Vec<(usize, u32)>, g: usize, b: u32) -> (r: bool)
    ensures
        r == flip_pairs(drawn@).contains((g as int, b as int)),
{
    let n = drawn.len();
    for k in 0..n
        invariant
            n == drawn.len(),
            forall|q: int| 0 <= q < k ==> #[trigger] flip_pairs(drawn@)[q] != (g as int, b as int),
    {
        let (dg, db) = drawn[k];
        if dg == g && db == b {
            assert(flip_pairs(drawn@)[k as int] == (g as int, b as int));
            return true;
        }
    }
    false
}

/// A bit not yet drawn: bit `b0` of gene `g0`, or else the next free bit
/// after it, counting round the whole gene pack.
fn free_flip(drawn: &Vec<(usize, u32)>, len: usize, g0: usize, b0: u32) -> (r: (usize, u32))
    requires
        0 < len,
        g0 < len,
        b0 < 32,
        drawn.len() < 32,
        forall|k: int| 0 <= k < drawn.len() ==> (#[trigger] drawn[k]).0 < len && drawn[k].1 < 32,
    ensures
        r.0 < len,
        r.1 < 32,
        !flip_pairs(drawn@).contains((r.0 as int, r.1 as int)),
{
    broadcast use vstd::seq_lib::seq_to_set_is_finite;

    let ghost total: int = len as int * 32;
    let ghost p0 = bit_pos((g0 as int, b0 as int));
    let ghost chosen = places(drawn@).to_set();
    let ghost mut t: int = 0;
    let ghost mut visited: Set<int> = Set::empty();
    proof {
        places(drawn@).lemma_cardinality_of_set();
    }
    let mut g = g0;
    let mut b = b0;
    while holds_flip(drawn, g, b)
        invariant
            g < len,
            b < 32,
            total == len * 32,
            0 <= p0 < total,
            0 <= t <= drawn.len(),
            drawn.len() < 32,
            bit_pos((g as int, b as int)) == round(p0, t, total),
            chosen == places(drawn@).to_set(),
            chosen.finite(),
            chosen.len() <= drawn.len(),
            visited.finite(),
            visited.len() == t,
            visited.subset_of(chosen),
            forall|x: int| visited.contains(x) ==> exists|u: int| 0 <= u < t && x == round(p0, u, total),
        decreases drawn.len() - t,
    {
        proof {
            let x = round(p0, t, total);
            let k = choose|k: int| 0 <= k < drawn.len() && flip_pairs(drawn@)[k] == (g as int, b as int);
            assert(places(drawn@)[k] == x);
            assert(chosen.contains(x));
            if visited.contains(x) {
                let u = choose|u: int| 0 <= u < t && x == round(p0, u, total);
                assert(false);
            }
            let old_visited = visited;
            visited = visited.insert(x);
            assert forall|y: int| visited.contains(y) implies exists|u: int| 0 <= u < t + 1 && y == round(p0, u, total) by {
                if y != x {
                    assert(old_visited.contains(y));
                    let u = choose|u: int| 0 <= u < t && y == round(p0, u, total);
                    assert(0 <= u < t + 1 && y == round(p0, u, total));
                } else {
                    assert(0 <= t < t + 1 && y == round(p0, t, total));
                }
            }
            vstd::set_lib::lemma_len_subset(visited, chosen);
            t = t + 1;
        }
        if b < 31 {
            b = b + 1;
        } else if g + 1 < len {
            g = g + 1;
            b = 0;
        } else {
            g = 0;
            b = 0;
        }
    }
    (g, b)
}

/// Generation of a child: one past its parent's, or, with a mate, one past
/// the later of the two parents' generations.
pub fn offspring_generation(parent: u32, mate: Option<u32>) -> (g: u32)
    requires
        parent < u32::MAX,
        mate matches Some(m) ==> m < u32::MAX,
    ensures
        g == match mate {
            None => parent + 1,
            Some(m) => if parent < m { m + 1 } else { parent + 1 },
        },
{
    match mate {
        Some(m) => if parent < m { m + 1 } else { parent + 1 },
        None => parent + 1,
    }
}

/// An element-wise copy of a gene pack.
fn copy_genes(v: &Vec<Gene>) -> (r: Vec<Gene>)
    ensures
        r@ == v@,
{
    let mut out: Vec<Gene> = Vec::new();
    let n = v.len();
    for i in 0..n
        invariant
            n == v.len(),
            out@ == v@.take(i as int),
    {
        out.push(v[i]);
        assert(out@ =~= v@.take(i + 1));
    }
    assert(out@ =~= v@);
    out
}

} // verus!
