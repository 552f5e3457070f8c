//! The wiring a genome grows into: one wire per gene, inner neurons that
//! cannot reach an action pruned away, and a display order for the net.

use vstd::prelude::*;
use crate::text::{decimal, push_decimal};
use crate::genome::{
    ACTION_BASE, SENSOR_BASE, spec_action_count, spec_inner_count, spec_sensor_count, spec_sink_id, spec_sink_type,
    spec_source_id, spec_source_type, spec_weight_raw, Gene, Genome,
};

verus! {

/// A wire in spec form: `(source port, sink port, raw weight)`.
pub type WireSpec = (int, int, int);

/// Port a gene reads from: a sensor `0..s` or an inner neuron `s..s+i`.
pub open spec fn gene_source(data: u32, s: int, i: int) -> int {
    if spec_source_type(data) == 0 {
        spec_source_id(data) as int % s
    } else {
        s + spec_source_id(data) as int % i
    }
}

/// Port a gene writes to: an inner neuron `s..s+i` or an action `s+i..s+i+a`.
pub open spec fn gene_sink(data: u32, s: int, i: int, a: int) -> int {
    if spec_sink_type(data) == 0 {
        s + spec_sink_id(data) as int % i
    } else {
        s + i + spec_sink_id(data) as int % a
    }
}

/// The wires that a gene pack expresses, in gene order. A gene whose source
/// and sink coincide expresses no wire.
pub open spec fn expressed(genes: Seq<Gene>, s: int, i: int, a: int) -> Seq<WireSpec>
    decreases genes.len(),
{
    if genes.len() == 0 {
        Seq::empty()
    } else {
        let prev = expressed(genes.drop_last(), s, i, a);
        let d = genes.last().data;
        let src = gene_source(d, s, i);
        let dst = gene_sink(d, s, i, a);
        if src == dst {
            prev
        } else {
            prev.push((src, dst, spec_weight_raw(d)))
        }
    }
}

pub open spec fn is_inner(x: int, s: int, i: int) -> bool {
    s <= x < s + i
}

pub open spec fn is_action(x: int, s: int, i: int) -> bool {
    x >= s + i
}

/// Port `x` drives an action through a chain of at most `k` inner hops.
pub open spec fn drives(w: Seq<WireSpec>, s: int, i: int, x: int, k: nat) -> bool
    decreases k,
{
    exists|j: int|
        #![trigger w[j]]
        0 <= j < w.len() && w[j].0 == x && (is_action(w[j].1, s, i) || (k > 0 && is_inner(
            w[j].1,
            s,
            i,
        ) && drives(w, s, i, w[j].1, (k - 1) as nat)))
}

/// Port `x` has a path of wires to some action.
pub open spec fn reaches_action(w: Seq<WireSpec>, s: int, i: int, x: int) -> bool {
    exists|k: nat| drives(w, s, i, x, k)
}

/// A wire into `dst` is worth keeping: `dst` is an action or an inner neuron
/// that reaches an action.
pub open spec fn feeds(w: Seq<WireSpec>, s: int, i: int, dst: int) -> bool {
    is_action(dst, s, i) || (is_inner(dst, s, i) && reaches_action(w, s, i, dst))
}

/// The first `n` wires of `w` that feed something useful, in order.
pub open spec fn pruned_upto(w: Seq<WireSpec>, s: int, i: int, n: int) -> Seq<WireSpec>
    decreases n,
{
    if n <= 0 {
        Seq::empty()
    } else {
        let p = pruned_upto(w, s, i, n - 1);
        if feeds(w, s, i, w[n - 1].1) {
            p.push(w[n - 1])
        } else {
            p
        }
    }
}

/// All wires of `w` that feed an action, directly or through useful inner neurons.
pub open spec fn pruned(w: Seq<WireSpec>, s: int, i: int) -> Seq<WireSpec> {
    pruned_upto(w, s, i, w.len() as int)
}

/// Number of `false` entries.
pub open spec fn count_false(v: Seq<bool>) -> nat
    decreases v.len(),
{
    if v.len() == 0 {
        0
    } else {
        count_false(v.drop_last()) + if v.last() { 0nat } else { 1nat }
    }
}

proof fn lemma_count_false_set(v: Seq<bool>, x: int)
    requires
        0 <= x < v.len(),
        !v[x],
    ensures
        count_false(v.update(x, true)) + 1 == count_false(v),
    decreases v.len(),
{
    let u = v.update(x, true);
    if x == v.len() - 1 {
        assert(u.drop_last() =~= v.drop_last());
    } else {
        assert(u.drop_last() =~= v.drop_last().update(x, true));
        lemma_count_false_set(v.drop_last(), x);
    }
}

/// Every useful-marked inner neuron whose wires close the marking under
/// "feeds a marked neuron or an action" contains all inner neurons that drive an action.
proof fn lemma_closed_marks_complete(
    w: Seq<WireSpec>,
    s: int,
    i: int,
    useful: Seq<bool>,
    x: int,
    k: nat,
)
    requires
        useful.len() == i,
        forall|j: int|
            #![trigger w[j]]
            0 <= j < w.len() && is_inner(w[j].0, s, i) && (is_action(w[j].1, s, i) || (is_inner(
                w[j].1,
                s,
                i,
            ) && useful[w[j].1 - s])) ==> useful[w[j].0 - s],
        is_inner(x, s, i),
        drives(w, s, i, x, k),
    ensures
        useful[x - s],
    decreases k,
{
    let j = choose|j: int|
        #![trigger w[j]]
        0 <= j < w.len() && w[j].0 == x && (is_action(w[j].1, s, i) || (k > 0 && is_inner(
            w[j].1,
            s,
            i,
        ) && drives(w, s, i, w[j].1, (k - 1) as nat)));
    if !is_action(w[j].1, s, i) {
        lemma_closed_marks_complete(w, s, i, useful, w[j].1, (k - 1) as nat);
    }
}

pub open spec fn wire_at(from: Seq<usize>, to: Seq<usize>, weights: Seq<i16>, j: int) -> WireSpec {
    (from[j] as int, to[j] as int, weights[j] as int)
}

pub open spec fn wires_of(from: Seq<usize>, to: Seq<usize>, weights: Seq<i16>) -> Seq<WireSpec> {
    Seq::new(from.len(), |j: int| wire_at(from, to, weights, j))
}

/// Build the raw wire lists from a genome: one wire per gene, self-loops dropped.
fn express(genome: &Genome, s: usize, i: usize, a: usize) -> (r: (Vec<usize>, Vec<usize>, Vec<i16>))
    requires
        s == spec_sensor_count(genome.nodes),
        i == spec_inner_count(genome.inner_neurons),
        a == spec_action_count(genome.nodes),
    ensures
        r.0.len() == r.1.len() == r.2.len(),
        wires_of(r.0@, r.1@, r.2@) == expressed(genome.genes@, s as int, i as int, a as int),
        forall|j: int| 0 <= j < r.0.len() ==> r.0[j] < s + i && r.1[j] >= s && r.1[j] < s + i + a,
{
    let mut from: Vec<usize> = Vec::new();
    let mut to: Vec<usize> = Vec::new();
    let mut weights: Vec<i16> = Vec::new();
    let n = genome.genes.len();
    for k in 0..n
        invariant
            n == genome.genes.len(),
            s == spec_sensor_count(genome.nodes),
            i == spec_inner_count(genome.inner_neurons),
            a == spec_action_count(genome.nodes),
            from.len() == to.len() == weights.len(),
            wires_of(from@, to@, weights@) == expressed(genome.genes@.take(k as int), s as int, i as int, a as int),
            forall|j: int| 0 <= j < from.len() ==> from[j] < s + i && to[j] >= s && to[j] < s + i + a,
    {
        let gene = genome.genes[k];
        let src: usize = if gene.source_type() == 0 {
            gene.source_id() as usize % s
        } else {
            s + gene.source_id() as usize % i
        };
        let dst: usize = if gene.sink_type() == 0 {
            s + gene.sink_id() as usize % i
        } else {
            s + i + gene.sink_id() as usize % a
        };
        let ghost before = wires_of(from@, to@, weights@);
        assert(genome.genes@.take(k + 1).drop_last() =~= genome.genes@.take(k as int));
        if src != dst {
            from.push(src);
            to.push(dst);
            weights.push(gene.weight_raw());
            assert(wires_of(from@, to@, weights@) =~= before.push((src as int, dst as int, spec_weight_raw(gene.data))));
        }
    }
    assert(genome.genes@.take(n as int) =~= genome.genes@);
    (from, to, weights)
}


/// Mark the inner neurons that have a path of wires to an action, by growing
/// the marked set until no wire adds to it.
fn mark_useful(from: &Vec<usize>, to: &Vec<usize>, weights: &Vec<i16>, s: usize, i: usize) -> (useful: Vec<bool>)
    requires
        from.len() == to.len() == weights.len(),
        s + i <= usize::MAX,
        i >= 1,
    ensures
        useful.len() == i,
        forall|x: int|
            0 <= x < i ==> (useful[x] <==> reaches_action(
                wires_of(from@, to@, weights@),
                s as int,
                i as int,
                s + x,
            )),
{
    let ghost w = wires_of(from@, to@, weights@);
    let mut useful: Vec<bool> = Vec::new();
    for x in 0..i
        invariant
            useful.len() == x,
            forall|y: int| 0 <= y < x ==> !useful[y],
    {
        useful.push(false);
    }
    let n = from.len();
    let mut grew = true;
    while grew
        invariant
            n == from.len() == to.len() == weights.len(),
            w == wires_of(from@, to@, weights@),
            s + i <= usize::MAX,
            useful.len() == i,
            forall|x: int| 0 <= x < i && useful[x] ==> reaches_action(w, s as int, i as int, s + x),
            !grew ==> forall|j: int|
                #![trigger w[j]]
                0 <= j < w.len() && is_inner(w[j].0, s as int, i as int) && (is_action(
                    w[j].1,
                    s as int,
                    i as int,
                ) || (is_inner(w[j].1, s as int, i as int) && useful[w[j].1 - s]))
                    ==> useful[w[j].0 - s],
        decreases count_false(useful@) + if grew { 1nat } else { 0nat },
    {
        grew = false;
        let ghost start = useful@;
        for j in 0..n
            invariant
                n == from.len() == to.len() == weights.len(),
                w == wires_of(from@, to@, weights@),
                s + i <= usize::MAX,
                useful.len() == i,
                forall|x: int| 0 <= x < i && useful[x] ==> reaches_action(w, s as int, i as int, s + x),
                !grew ==> useful@ == start,
                grew ==> count_false(useful@) < count_false(start),
                !grew ==> forall|jj: int|
                    #![trigger w[jj]]
                    0 <= jj < j && is_inner(w[jj].0, s as int, i as int) && (is_action(
                        w[jj].1,
                        s as int,
                        i as int,
                    ) || (is_inner(w[jj].1, s as int, i as int) && useful[w[jj].1 - s]))
                        ==> useful[w[jj].0 - s],
        {
            let src = from[j];
            let dst = to[j];
            assert(w[j as int] == (src as int, dst as int, weights[j as int] as int));
            let sink_ok = dst >= s + i || (s <= dst && dst < s + i && useful[dst - s]);
            if sink_ok && s <= src && src < s + i && !useful[src - s] {
                proof {
                    let x = src as int;
                    if is_action(dst as int, s as int, i as int) {
                        assert(drives(w, s as int, i as int, x, 0));
                    } else {
                        let k0 = choose|k: nat| #[trigger] drives(w, s as int, i as int, dst as int, k);
                        assert(drives(w, s as int, i as int, x, k0 + 1));
                    }
                    lemma_count_false_set(useful@, src - s);
                }
                useful.set(src - s, true);
                grew = true;
            }
        }
    }
    proof {
        assert forall|x: int| 0 <= x < i && reaches_action(w, s as int, i as int, s + x) implies useful[x] by {
            let k = choose|k: nat| #[trigger] drives(w, s as int, i as int, s + x, k);
            lemma_closed_marks_complete(w, s as int, i as int, useful@, s + x, k);
        }
    }
    useful
}


/// The wires whose sink is an action or a marked inner neuron, in order.
fn keep_feeding(
    from: &Vec<usize>,
    to: &Vec<usize>,
    weights: &Vec<i16>,
    useful: &Vec<bool>,
    s: usize,
    i: usize,
    t: usize,
) -> (r: (Vec<usize>, Vec<usize>, Vec<i16>))
    requires
        from.len() == to.len() == weights.len(),
        forall|j: int| 0 <= j < from.len() ==> from[j] < s + i && to[j] < t,
        s + i <= usize::MAX,
        useful.len() == i,
        forall|x: int|
            0 <= x < i ==> (useful[x] <==> reaches_action(
                wires_of(from@, to@, weights@),
                s as int,
                i as int,
                s + x,
            )),
    ensures
        r.0.len() == r.1.len() == r.2.len(),
        wires_of(r.0@, r.1@, r.2@) == pruned(wires_of(from@, to@, weights@), s as int, i as int),
        forall|j: int| 0 <= j < r.0.len() ==> r.0[j] < s + i && r.1[j] < t,
{
    let ghost w = wires_of(from@, to@, weights@);
    let mut kf: Vec<usize> = Vec::new();
    let mut kt: Vec<usize> = Vec::new();
    let mut kw: Vec<i16> = Vec::new();
    let n = from.len();
    for j in 0..n
        invariant
            n == from.len() == to.len() == weights.len(),
            w == wires_of(from@, to@, weights@),
            s + i <= usize::MAX,
            useful.len() == i,
            forall|x: int|
                0 <= x < i ==> (useful[x] <==> reaches_action(w, s as int, i as int, s + x)),
            kf.len() == kt.len() == kw.len(),
            wires_of(kf@, kt@, kw@) == pruned_upto(w, s as int, i as int, j as int),
            forall|q: int| 0 <= q < kf.len() ==> kf[q] < s + i && kt[q] < t,
            forall|q: int| 0 <= q < from.len() ==> from[q] < s + i && to[q] < t,
    {
        let dst = to[j];
        assert(w[j as int] == (from[j as int] as int, dst as int, weights[j as int] as int));
        let ghost before = wires_of(kf@, kt@, kw@);
        let sink_ok = dst >= s + i || (s <= dst && dst < s + i && useful[dst - s]);
        proof {
            if s <= dst && dst < s + i {
                assert(useful[dst - s] <==> reaches_action(w, s as int, i as int, s + (dst - s)));
            }
            assert(sink_ok <==> feeds(w, s as int, i as int, dst as int));
        }
        if sink_ok {
            kf.push(from[j]);
            kt.push(dst);
            kw.push(weights[j]);
            assert(wires_of(kf@, kt@, kw@) =~= before.push(w[j as int]));
        }
    }
    (kf, kt, kw)
}


/// Port `x` is an end of some wire of `p`.
pub open spec fn touched(p: Seq<WireSpec>, x: int) -> bool {
    exists|j: int| #![trigger p[j]] 0 <= j < p.len() && (p[j].0 == x || p[j].1 == x)
}

/// Ports below `n` that some wire of `p` touches, in increasing order.
pub open spec fn listed_upto(p: Seq<WireSpec>, n: int) -> Seq<int>
    decreases n,
{
    if n <= 0 {
        Seq::empty()
    } else if touched(p, n - 1) {
        listed_upto(p, n - 1).push(n - 1)
    } else {
        listed_upto(p, n - 1)
    }
}

/// Display class of a port: 0 sensor, 1 inner neuron, 2 action.
pub open spec fn port_kind(x: int, s: int, i: int) -> u8 {
    if x < s { 0 } else if x < s + i { 1 } else { 2 }
}

pub open spec fn as_ints(v: Seq<usize>) -> Seq<int> {
    Seq::new(v.len(), |k: int| v[k] as int)
}

proof fn lemma_listed_bounds(p: Seq<WireSpec>, n: int)
    ensures
        forall|k: int| 0 <= k < listed_upto(p, n).len() ==> 0 <= #[trigger] listed_upto(p, n)[k] < n,
        n >= 0 ==> listed_upto(p, n).len() <= n,
    decreases n,
{
    if n > 0 {
        lemma_listed_bounds(p, n - 1);
    }
}

/// Lay out the net for display: every port that a wire touches, sensors
/// first, then inner neurons, then actions, each in port order.
fn display_order(pf: &Vec<usize>, pt: &Vec<usize>, pw: &Vec<i16>, total: usize, s: usize, i: usize) -> (r: (
    Vec<u8>,
    Vec<usize>,
    Vec<Option<usize>>,
))
    requires
        pf.len() == pt.len() == pw.len(),
        s + i <= total,
        forall|j: int| 0 <= j < pf.len() ==> pf[j] < total && pt[j] < total,
    ensures
        as_ints(r.1@) == listed_upto(wires_of(pf@, pt@, pw@), total as int),
        r.0.len() == r.1.len(),
        forall|k: int| 0 <= k < r.0.len() ==> r.0[k] == port_kind(r.1[k] as int, s as int, i as int),
        r.2.len() == total,
        forall|x: int|
            0 <= x < total ==> match #[trigger] r.2[x] {
                Some(k) => k < r.1.len() && r.1[k as int] == x,
                None => !touched(wires_of(pf@, pt@, pw@), x),
            },
        forall|x: int| 0 <= x < total && touched(wires_of(pf@, pt@, pw@), x) ==> r.2[x] is Some,
{
    let ghost p = wires_of(pf@, pt@, pw@);
    let mut seen: Vec<bool> = Vec::new();
    for x in 0..total
        invariant
            seen.len() == x,
            forall|y: int| 0 <= y < x ==> !seen[y],
    {
        seen.push(false);
    }
    let m = pf.len();
    for j in 0..m
        invariant
            m == pf.len() == pt.len() == pw.len(),
            p == wires_of(pf@, pt@, pw@),
            forall|q: int| 0 <= q < pf.len() ==> pf[q] < total && pt[q] < total,
            seen.len() == total,
            forall|x: int|
                0 <= x < total ==> (seen[x] <==> exists|jj: int|
                    #![trigger p[jj]]
                    0 <= jj < j && (p[jj].0 == x || p[jj].1 == x)),
    {
        let a = pf[j];
        let b = pt[j];
        assert(p[j as int] == (a as int, b as int, pw[j as int] as int));
        seen.set(a, true);
        seen.set(b, true);
        assert forall|x: int|
            0 <= x < total implies (seen[x] <==> exists|jj: int|
                #![trigger p[jj]]
                0 <= jj < j + 1 && (p[jj].0 == x || p[jj].1 == x)) by {
            if seen[x] && x != a && x != b {
                let jj = choose|jj: int| #![trigger p[jj]] 0 <= jj < j && (p[jj].0 == x || p[jj].1 == x);
                assert(0 <= jj < j + 1 && (p[jj].0 == x || p[jj].1 == x));
            }
            if x == a || x == b {
                assert(0 <= j < j + 1 && (p[j as int].0 == x || p[j as int].1 == x));
            }
        }
    }
    let mut show_kind: Vec<u8> = Vec::new();
    let mut show_src: Vec<usize> = Vec::new();
    let mut show_of: Vec<Option<usize>> = Vec::new();
    for x in 0..total
        invariant
            p == wires_of(pf@, pt@, pw@),
            s + i <= total,
            seen.len() == total,
            forall|y: int| 0 <= y < total ==> (seen[y] <==> touched(p, y)),
            as_ints(show_src@) == listed_upto(p, x as int),
            show_kind.len() == show_src.len(),
            forall|k: int| 0 <= k < show_kind.len() ==> show_kind[k] == port_kind(show_src[k] as int, s as int, i as int),
            show_of.len() == x,
            forall|y: int|
                0 <= y < x ==> match #[trigger] show_of[y] {
                    Some(k) => k < show_src.len() && show_src[k as int] == y,
                    None => !touched(p, y),
                },
            forall|y: int| 0 <= y < x && touched(p, y) ==> show_of[y] is Some,
    {
        proof {
            lemma_listed_bounds(p, x as int);
        }
        if seen[x] {
            show_of.push(Some(show_src.len()));
            let kind: u8 = if x < s {
                0
            } else if x < s + i {
                1
            } else {
                2
            };
            show_kind.push(kind);
            show_src.push(x);
            assert(as_ints(show_src@) =~= listed_upto(p, x + 1));
        } else {
            show_of.push(None);
            assert(as_ints(show_src@) =~= listed_upto(p, x + 1));
        }
    }
    (show_kind, show_src, show_of)
}


/// Display name of a sensory port.
pub open spec fn sensor_name(x: int) -> Seq<char> {
    if x == 0 { "pozice X"@ }
    else if x == 1 { "pozice Y"@ }
    else if x == 2 { "podobní"@ }
    else if x == 3 { "okraj X"@ }
    else if x == 4 { "okraj Y"@ }
    else if x == 5 { "feromon"@ }
    else if x == 6 { "hustota"@ }
    else if x == 7 { "grad vpřed"@ }
    else if x == 8 { "grad stranou"@ }
    else if x == 9 { "věk"@ }
    else if x == 10 { "oscilátor"@ }
    else if x == 11 { "vůně zelené"@ }
    else if x == 12 { "vůně zlaté"@ }
    else if x == 13 { "vůně jedu"@ }
    else if x == 14 { "vůně Δ"@ }
    else if x == 15 { "jídlo vpřed"@ }
    else if x == 16 { "jídlo stranou"@ }
    else if x == 17 { "kin L"@ }
    else if x == 18 { "kin C"@ }
    else if x == 19 { "kin P"@ }
    else if x == 20 { "dotek L"@ }
    else if x == 21 { "dotek P"@ }
    else if x == 22 { "dotek D"@ }
    else if x == 23 { "dotek H"@ }
    else if x == 24 { "energie"@ }
    else if x == 25 { "bolest"@ }
    else { "sval/smysl"@ }
}

/// Display name of an action port.
pub open spec fn action_name(x: int) -> Seq<char> {
    if x == 0 { "pohyb X"@ }
    else if x == 1 { "pohyb Y"@ }
    else if x == 2 { "vpřed"@ }
    else if x == 3 { "náhodný"@ }
    else if x == 4 { "východ"@ }
    else if x == 5 { "západ"@ }
    else if x == 6 { "sever"@ }
    else if x == 7 { "jih"@ }
    else if x == 8 { "feromon"@ }
    else if x == 9 { "citlivost"@ }
    else if x == 10 { "tempo osc"@ }
    else if x == 11 { "útok"@ }
    else if x == 12 { "enzym"@ }
    else if x == 13 { "potomek"@ }
    else if x == 14 { "růst"@ }
    else { "sval"@ }
}

/// Display name of sensory port `i`: the 26 fixed ports, then the body's
/// muscle-length senses.
pub fn sensor_label(i: usize) -> (r: &'static str)
    ensures
        r@ == sensor_name(i as int),
{
    match i {
        0 => "pozice X",
        1 => "pozice Y",
        2 => "podobní",
        3 => "okraj X",
        4 => "okraj Y",
        5 => "feromon",
        6 => "hustota",
        7 => "grad vpřed",
        8 => "grad stranou",
        9 => "věk",
        10 => "oscilátor",
        11 => "vůně zelené",
        12 => "vůně zlaté",
        13 => "vůně jedu",
        14 => "vůně Δ",
        15 => "jídlo vpřed",
        16 => "jídlo stranou",
        17 => "kin L",
        18 => "kin C",
        19 => "kin P",
        20 => "dotek L",
        21 => "dotek P",
        22 => "dotek D",
        23 => "dotek H",
        24 => "energie",
        25 => "bolest",
        _ => "sval/smysl",
    }
}

/// Display name of action port `i`: the 15 fixed ports, then the muscles.
pub fn action_label(i: usize) -> (r: &'static str)
    ensures
        r@ == action_name(i as int),
{
    match i {
        0 => "pohyb X",
        1 => "pohyb Y",
        2 => "vpřed",
        3 => "náhodný",
        4 => "východ",
        5 => "západ",
        6 => "sever",
        7 => "jih",
        8 => "feromon",
        9 => "citlivost",
        10 => "tempo osc",
        11 => "útok",
        12 => "enzym",
        13 => "potomek",
        14 => "růst",
        _ => "sval",
    }
}


/// Display name of a listed port of kind `kind` in a net with `s` sensors and
/// `i` inner neurons: the sensor or action name, or `H1`, `H2`, … for inner neurons.
pub open spec fn port_label(kind: u8, x: int, s: int, i: int) -> Seq<char> {
    if kind == 0 {
        sensor_name(x)
    } else if kind == 2 {
        action_name(if x - s - i < 0 { 0 } else { x - s - i })
    } else {
        "H"@ + decimal((if x - s < 0 { 0 } else { x - s }) as nat + 1)
    }
}

/// Ports listed by `listed_upto` come in strictly increasing order.
pub proof fn lemma_listed_increasing(p: Seq<WireSpec>, n: int)
    ensures
        forall|a: int, b: int|
            0 <= a < b < listed_upto(p, n).len() ==> #[trigger] listed_upto(p, n)[a] < #[trigger] listed_upto(
                p,
                n,
            )[b],
    decreases n,
{
    if n > 0 {
        lemma_listed_increasing(p, n - 1);
        lemma_listed_bounds(p, n - 1);
    }
}

/// The wiring a genome grows into. Wires carry the innate (genetic) raw weight;
/// a raw weight `w` stands for `w / 8000`.
pub struct Brain {
    sensors: usize,
    inners: usize,
    actions: usize,
    from: Vec<usize>,
    to: Vec<usize>,
    weights: Vec<i16>,
    /// Display order: connected sensors, useful inners, driven actions.
    show_kind: Vec<u8>,
    show_src: Vec<usize>,
    show_of: Vec<Option<usize>>,
}

impl Brain {
    #[verifier::type_invariant]
    closed spec fn inv(&self) -> bool {
        let total = self.sensors + self.inners + self.actions;
        &&& total <= usize::MAX
        &&& self.from.len() == self.to.len() == self.weights.len()
        &&& self.show_kind.len() == self.show_src.len()
        &&& self.show_of.len() == total
        &&& forall|j: int| 0 <= j < self.from.len() ==> self.from[j] < total && self.to[j] < total
        &&& forall|j: int| 0 <= j < self.from.len() ==> self.show_of[self.from[j] as int] is Some
            && self.show_of[self.to[j] as int] is Some
        &&& forall|x: int| 0 <= x < total ==> match #[trigger] self.show_of[x] {
            Some(k) => k < self.show_src.len() && self.show_src[k as int] == x,
            None => true,
        }
        &&& forall|k: int| 0 <= k < self.show_src.len() ==> self.show_src[k] < total
        &&& forall|k: int| 0 <= k < self.show_kind.len() ==> self.show_kind[k] == port_kind(
            self.show_src[k] as int,
            self.sensors as int,
            self.inners as int,
        )
    }

    /// Sensory ports of this net.
    pub closed spec fn sensor_ports(&self) -> int {
        self.sensors as int
    }

    /// Inner neurons of this net.
    pub closed spec fn inner_ports(&self) -> int {
        self.inners as int
    }

    /// Action ports of this net.
    pub closed spec fn action_ports(&self) -> int {
        self.actions as int
    }

    /// The kept wires, in gene order.
    pub closed spec fn wiring(&self) -> Seq<WireSpec> {
        wires_of(self.from@, self.to@, self.weights@)
    }

    /// The listed ports in display order.
    pub closed spec fn shown(&self) -> Seq<int> {
        as_ints(self.show_src@)
    }

    /// Display class of each listed port.
    pub closed spec fn shown_kinds(&self) -> Seq<u8> {
        self.show_kind@
    }

    /// Grow the wiring of a genome. Each gene gives one wire from its source
    /// port to its sink port (ids taken modulo the port counts), unless the two
    /// coincide; wires into inner neurons that have no path to an action are
    /// dropped. Every port that a kept wire touches is listed for display, in
    /// port order, which puts sensors first, then inner neurons, then actions.
    pub fn from_genome(genome: &Genome) -> (b: Brain)
        ensures
            b.sensor_ports() == spec_sensor_count(genome.nodes),
            b.inner_ports() == spec_inner_count(genome.inner_neurons),
            b.action_ports() == spec_action_count(genome.nodes),
            b.wiring() == pruned(
                expressed(genome.genes@, b.sensor_ports(), b.inner_ports(), b.action_ports()),
                b.sensor_ports(),
                b.inner_ports(),
            ),
            b.shown() == listed_upto(b.wiring(), b.sensor_ports() + b.inner_ports() + b.action_ports()),
            b.shown_kinds().len() == b.shown().len(),
            forall|k: int|
                0 <= k < b.shown().len() ==> b.shown_kinds()[k] == port_kind(
                    b.shown()[k],
                    b.sensor_ports(),
                    b.inner_ports(),
                ),
    {
        let s = genome.sensor_count();
        let i = genome.inner_count();
        let a = genome.action_count();
        let total = s + i + a;
        let (from, to, weights) = express(genome, s, i, a);
        let useful = mark_useful(&from, &to, &weights, s, i);
        let (kf, kt, kw) = keep_feeding(&from, &to, &weights, &useful, s, i, total);
        let (show_kind, show_src, show_of) = display_order(&kf, &kt, &kw, total, s, i);
        proof {
            let p = wires_of(kf@, kt@, kw@);
            assert forall|j: int| 0 <= j < kf.len() implies show_of[kf[j] as int] is Some
                && show_of[kt[j] as int] is Some by {
                assert(p[j] == (kf[j] as int, kt[j] as int, kw[j] as int));
                assert(touched(p, kf[j] as int));
                assert(touched(p, kt[j] as int));
            }
            assert forall|k: int| 0 <= k < show_src.len() implies show_src[k] < total by {
                lemma_listed_bounds(p, total as int);
                assert(as_ints(show_src@)[k] == show_src[k] as int);
            }
        }
        Brain { sensors: s, inners: i, actions: a, from: kf, to: kt, weights: kw, show_kind, show_src, show_of }
    }

    /// Number of listed neurons.
    pub fn neuron_count(&self) -> (r: usize)
        ensures
            r == self.shown().len(),
    {
        proof {
            use_type_invariant(self);
        }
        self.show_kind.len()
    }

    /// Number of kept wires.
    pub fn synapse_count(&self) -> (r: usize)
        ensures
            r == self.wiring().len(),
    {
        proof {
            use_type_invariant(self);
        }
        self.weights.len()
    }

    /// Number of sensory ports, inner neurons and action ports.
    pub fn port_counts(&self) -> (r: (usize, usize, usize))
        ensures
            r.0 == self.sensor_ports(),
            r.1 == self.inner_ports(),
            r.2 == self.action_ports(),
    {
        (self.sensors, self.inners, self.actions)
    }

    /// The port of each listed neuron, in display order.
    pub fn ports(&self) -> (r: Vec<usize>)
        ensures
            as_ints(r@) == self.shown(),
    {
        self.show_src.clone()
    }

    /// Display class of each listed neuron: 0 sensor, 1 inner, 2 action.
    pub fn kinds(&self) -> (r: Vec<u8>)
        ensures
            r@ == self.shown_kinds(),
    {
        self.show_kind.clone()
    }

    /// Kept wires as `(listed index of source, listed index of sink, raw weight)`.
    pub fn wires(&self) -> (r: Vec<(usize, usize, i16)>)
        ensures
            r.len() == self.wiring().len(),
            forall|j: int|
                0 <= j < r.len() ==> {
                    &&& r[j].0 < self.shown().len()
                    &&& r[j].1 < self.shown().len()
                    &&& self.shown()[r[j].0 as int] == self.wiring()[j].0
                    &&& self.shown()[r[j].1 as int] == self.wiring()[j].1
                    &&& r[j].2 as int == self.wiring()[j].2
                },
    {
        proof {
            use_type_invariant(self);
        }
        let mut out: Vec<(usize, usize, i16)> = Vec::new();
        let n = self.from.len();
        for j in 0..n
            invariant
                n == self.from.len() == self.to.len() == self.weights.len(),
                out.len() == j,
                self.inv(),
                forall|q: int|
                    0 <= q < out.len() ==> {
                        &&& out[q].0 < self.shown().len()
                        &&& out[q].1 < self.shown().len()
                        &&& self.shown()[out[q].0 as int] == self.wiring()[q].0
                        &&& self.shown()[out[q].1 as int] == self.wiring()[q].1
                        &&& out[q].2 as int == self.wiring()[q].2
                    },
        {
            let f = self.from[j];
            let t = self.to[j];
            let a = match self.show_of[f] {
                Some(k) => k,
                None => 0,
            };
            let b = match self.show_of[t] {
                Some(k) => k,
                None => 0,
            };
            out.push((a, b, self.weights[j]));
        }
        out
    }

    /// Display name of each listed neuron.
    pub fn labels(&self) -> (r: Vec<String>)
        ensures
            r.len() == self.shown().len(),
            forall|k: int|
                0 <= k < r.len() ==> r[k]@ == port_label(
                    self.shown_kinds()[k],
                    self.shown()[k],
                    self.sensor_ports(),
                    self.inner_ports(),
                ),
    {
        proof {
            use_type_invariant(self);
        }
        let mut out: Vec<String> = Vec::new();
        let n = self.show_kind.len();
        for k in 0..n
            invariant
                n == self.show_kind.len() == self.show_src.len(),
                self.inv(),
                out.len() == k,
                forall|q: int|
                    0 <= q < out.len() ==> out[q]@ == port_label(
                        self.shown_kinds()[q],
                        self.shown()[q],
                        self.sensor_ports(),
                        self.inner_ports(),
                    ),
        {
            let kind = self.show_kind[k];
            let src = self.show_src[k];
            let label = if kind == 0 {
                String::from_str(sensor_label(src))
            } else if kind == 2 {
                String::from_str(action_label(src.saturating_sub(self.sensors + self.inners)))
            } else {
                let mut t = String::from_str("H");
                proof {
                    reveal_strlit("H");
                }
                push_decimal(&mut t, (src.saturating_sub(self.sensors) + 1) as u64);
                t
            };
            out.push(label);
        }
        out
    }
}


proof fn lemma_pruned_from(w: Seq<WireSpec>, s: int, i: int, n: int)
    requires
        0 <= n <= w.len(),
    ensures
        forall|j: int|
            0 <= j < pruned_upto(w, s, i, n).len() ==> exists|m: int|
                0 <= m < n && #[trigger] pruned_upto(w, s, i, n)[j] == w[m] && feeds(w, s, i, w[m].1),
    decreases n,
{
    if n > 0 {
        lemma_pruned_from(w, s, i, n - 1);
        let p = pruned_upto(w, s, i, n - 1);
        assert forall|j: int| 0 <= j < pruned_upto(w, s, i, n).len() implies exists|m: int|
            0 <= m < n && #[trigger] pruned_upto(w, s, i, n)[j] == w[m] && feeds(w, s, i, w[m].1) by {
            if j < p.len() {
                assert(pruned_upto(w, s, i, n)[j] == p[j]);
                let m = choose|m: int| 0 <= m < n - 1 && #[trigger] p[j] == w[m] && feeds(w, s, i, w[m].1);
                assert(0 <= m < n && pruned_upto(w, s, i, n)[j] == w[m] && feeds(w, s, i, w[m].1));
            } else {
                assert(pruned_upto(w, s, i, n)[j] == w[n - 1]);
            }
        }
    }
}

/// Pruning keeps only useful inner neurons: every inner neuron that a kept
/// wire touches has a path of wires to an action, and every kept wire ends in
/// an action or in such an inner neuron.
pub proof fn law_kept_inners_drive_actions(w: Seq<WireSpec>, s: int, i: int)
    ensures
        forall|j: int| 0 <= j < pruned(w, s, i).len() ==> #[trigger] feeds(w, s, i, pruned(w, s, i)[j].1),
        forall|x: int| #[trigger] touched(pruned(w, s, i), x) && is_inner(x, s, i) ==> reaches_action(w, s, i, x),
{
    let p = pruned(w, s, i);
    lemma_pruned_from(w, s, i, w.len() as int);
    assert forall|j: int| 0 <= j < p.len() implies #[trigger] feeds(w, s, i, p[j].1) by {
        let m = choose|m: int| 0 <= m < w.len() && #[trigger] p[j] == w[m] && feeds(w, s, i, w[m].1);
    }
    assert forall|x: int| #[trigger] touched(p, x) && is_inner(x, s, i) implies reaches_action(w, s, i, x) by {
        let j = choose|j: int| #![trigger p[j]] 0 <= j < p.len() && (p[j].0 == x || p[j].1 == x);
        let m = choose|m: int| 0 <= m < w.len() && #[trigger] p[j] == w[m] && feeds(w, s, i, w[m].1);
        if p[j].1 != x {
            assert(w[m].0 == x);
            if is_action(w[m].1, s, i) {
                assert(drives(w, s, i, x, 0));
            } else {
                let k0 = choose|k: nat| #[trigger] drives(w, s, i, w[m].1, k);
                assert(drives(w, s, i, x, k0 + 1));
            }
        }
    }
}

/// A gene that reads a sensor wires sensory port `id % (26 + nodes - 1)`,
/// its source id taken modulo the body's whole sensor count (the fixed ports
/// and one muscle-length sense per spring), into the gene's weight: the
/// expressed wiring of a body with `nodes` nodes and budget `inner` holds
/// that wire.
pub proof fn law_sensor_genes_read_every_sensor(genes: Seq<Gene>, nodes: u8, inner: u8, j: int)
    requires
        0 <= j < genes.len(),
        (genes[j].data >> 31u32) == 0,
    ensures
        exists|k: int|
            0 <= k < expressed(genes, SENSOR_BASE + nodes - 1, spec_inner_count(inner), ACTION_BASE + nodes - 1).len()
                && #[trigger] expressed(genes, SENSOR_BASE + nodes - 1, spec_inner_count(inner), ACTION_BASE + nodes - 1)[k].0
                == ((genes[j].data >> 24u32) & 0x7fu32) as int % (SENSOR_BASE + nodes - 1)
                && expressed(genes, SENSOR_BASE + nodes - 1, spec_inner_count(inner), ACTION_BASE + nodes - 1)[k].2
                == spec_weight_raw(genes[j].data),
    decreases genes.len(),
{
    let s = SENSOR_BASE + nodes - 1;
    let i = spec_inner_count(inner);
    let a = ACTION_BASE + nodes - 1;
    let d = genes[j].data;
    assert(spec_source_type(d) == (d >> 31u32)) by (bit_vector);
    assert(spec_source_id(d) == ((d >> 24u32) & 0x7fu32)) by (bit_vector);
    let prev = expressed(genes.drop_last(), s, i, a);
    if j == genes.len() - 1 {
        assert(gene_source(d, s, i) < s);
        assert(gene_sink(d, s, i, a) >= s);
        let w = expressed(genes, s, i, a);
        assert(w[prev.len() as int].0 == ((d >> 24u32) & 0x7fu32) as int % s);
    } else {
        assert(genes.drop_last()[j] == genes[j]);
        law_sensor_genes_read_every_sensor(genes.drop_last(), nodes, inner, j);
        let k = choose|k: int|
            0 <= k < prev.len() && #[trigger] prev[k].0 == ((d >> 24u32) & 0x7fu32) as int % s && prev[k].2
                == spec_weight_raw(d);
        let w = expressed(genes, s, i, a);
        assert(w[k] == prev[k]);
    }
}

/// Every expressed wire that starts at a sensory port comes from a gene that
/// reads a sensor, the port being that gene's source id modulo the body's
/// whole sensor count.
pub proof fn law_sensor_wires_come_from_sensor_genes(genes: Seq<Gene>, nodes: u8, inner: u8, k: int)
    requires
        0 <= k < expressed(genes, SENSOR_BASE + nodes - 1, spec_inner_count(inner), ACTION_BASE + nodes - 1).len(),
        expressed(genes, SENSOR_BASE + nodes - 1, spec_inner_count(inner), ACTION_BASE + nodes - 1)[k].0
            < SENSOR_BASE + nodes - 1,
    ensures
        exists|j: int|
            0 <= j < genes.len() && (#[trigger] genes[j].data >> 31u32) == 0 && expressed(
                genes,
                SENSOR_BASE + nodes - 1,
                spec_inner_count(inner),
                ACTION_BASE + nodes - 1,
            )[k].0 == ((genes[j].data >> 24u32) & 0x7fu32) as int % (SENSOR_BASE + nodes - 1),
    decreases genes.len(),
{
    let s = SENSOR_BASE + nodes - 1;
    let i = spec_inner_count(inner);
    let a = ACTION_BASE + nodes - 1;
    let prev = expressed(genes.drop_last(), s, i, a);
    let w = expressed(genes, s, i, a);
    if k < prev.len() {
        assert(w[k] == prev[k]);
        law_sensor_wires_come_from_sensor_genes(genes.drop_last(), nodes, inner, k);
        let j = choose|j: int|
            0 <= j < genes.drop_last().len() && (#[trigger] genes.drop_last()[j].data >> 31u32) == 0 && prev[k].0
                == ((genes.drop_last()[j].data >> 24u32) & 0x7fu32) as int % s;
        assert(genes.drop_last()[j] == genes[j]);
    } else {
        let j = genes.len() - 1;
        let d = genes[j].data;
        assert(spec_source_type(d) == (d >> 31u32)) by (bit_vector);
        assert(spec_source_id(d) == ((d >> 24u32) & 0x7fu32)) by (bit_vector);
        assert(w[k].0 == gene_source(d, s, i));
    }
}

} // verus!
