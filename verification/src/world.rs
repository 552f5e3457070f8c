//! Food varieties, dish edge effects and survival rules.

use vstd::prelude::*;

verus! {

/// Number of food varieties.
pub const FOOD_KIND_COUNT: usize = 3;

/// A food variety.
#[derive(Clone, Copy, PartialEq, Eq, Debug, Structural)]
pub enum FoodKind {
    /// Common green: balanced smell and energy.
    Green,
    /// Rich amber: short smell, high energy.
    Amber,
    /// Toxic violet: long smell, damage.
    Toxic,
}

/// Position of a variety in the list of varieties.
pub open spec fn kind_index(k: FoodKind) -> int {
    match k {
        FoodKind::Green => 0,
        FoodKind::Amber => 1,
        FoodKind::Toxic => 2,
    }
}

/// The variety at list position `i` modulo the number of varieties.
pub open spec fn kind_at(i: int) -> FoodKind {
    let r = i % 3;
    if r == 0 { FoodKind::Green } else if r == 1 { FoodKind::Amber } else { FoodKind::Toxic }
}

impl FoodKind {
    pub fn from_index(i: usize) -> (k: FoodKind)
        ensures
            k == kind_at(i as int),
    {
        match i % FOOD_KIND_COUNT {
            0 => FoodKind::Green,
            1 => FoodKind::Amber,
            _ => FoodKind::Toxic,
        }
    }

    pub fn index(self) -> (i: usize)
        ensures
            i == kind_index(self),
            i < FOOD_KIND_COUNT,
    {
        match self {
            FoodKind::Green => 0,
            FoodKind::Amber => 1,
            FoodKind::Toxic => 2,
        }
    }

    /// The following variety, cycling back to the first.
    pub fn next(self) -> (k: FoodKind)
        ensures
            k == kind_at(kind_index(self) + 1),
    {
        Self::from_index(self.index() + 1)
    }

    pub fn label(self) -> (s: &'static str)
        ensures
            s@ == match self {
                FoodKind::Green => "zelené"@,
                FoodKind::Amber => "zlaté"@,
                FoodKind::Toxic => "jedovaté"@,
            },
    {
        match self {
            FoodKind::Green => "zelené",
            FoodKind::Amber => "zlaté",
            FoodKind::Toxic => "jedovaté",
        }
    }

    pub fn short(self) -> (s: &'static str)
        ensures
            s@ == match self {
                FoodKind::Green => "Zel"@,
                FoodKind::Amber => "Zla"@,
                FoodKind::Toxic => "Jed"@,
            },
    {
        match self {
            FoodKind::Green => "Zel",
            FoodKind::Amber => "Zla",
            FoodKind::Toxic => "Jed",
        }
    }
}

/// Starter meals of a new dish, by meal number: out of every eight, five green,
/// two amber and one toxic, so founders are not baited into poison first.
pub open spec fn starter_kind(i: int) -> FoodKind {
    let r = i % 8;
    if r <= 4 { FoodKind::Green } else if r <= 6 { FoodKind::Amber } else { FoodKind::Toxic }
}

pub fn starter_food_kind(i: usize) -> (k: FoodKind)
    ensures
        k == starter_kind(i as int),
{
    match i % 8 {
        0 | 1 | 2 | 3 | 4 => FoodKind::Green,
        5 | 6 => FoodKind::Amber,
        _ => FoodKind::Toxic,
    }
}

/// Varieties are numbered `0, 1, 2` one-to-one: the index of a variety picks it back.
pub proof fn law_kind_index_round_trip(k: FoodKind, i: int)
    ensures
        kind_at(kind_index(k)) == k,
        0 <= i ==> kind_index(kind_at(i)) == i % 3,
{
}

/// Stepping to the next variety three times comes back to the start.
pub proof fn law_kind_next_cycles(k: FoodKind)
    ensures
        kind_at(kind_index(kind_at(kind_index(kind_at(kind_index(k) + 1)) + 1)) + 1) == k,
        kind_at(kind_index(k) + 1) != k,
{
}

/// Who is allowed to continue when a generation ends. `Live` keeps the dish on
/// energy and damage, which is the running default.
#[derive(Clone, Copy, PartialEq, Eq, Debug, Structural)]
pub enum Survival {
    Live,
    RightSide,
    Edges,
    Center,
    Shifting,
}

/// Effect of a dish edge zone, applied when an organism enters the reach band.
#[derive(Clone, Copy, PartialEq, Eq, Debug, Structural)]
pub enum EdgeEffect {
    NoEffect,
    Dopamine,
    Hurt,
    Heal,
    Energy,
}

/// Position of an edge effect in the cycle `NoEffect, Dopamine, Hurt, Heal, Energy`.
pub open spec fn effect_index(e: EdgeEffect) -> int {
    match e {
        EdgeEffect::NoEffect => 0,
        EdgeEffect::Dopamine => 1,
        EdgeEffect::Hurt => 2,
        EdgeEffect::Heal => 3,
        EdgeEffect::Energy => 4,
    }
}

impl EdgeEffect {
    /// The following effect in the cycle `NoEffect → Dopamine → Hurt → Heal → Energy → NoEffect`.
    pub fn next(self) -> (e: EdgeEffect)
        ensures
            effect_index(e) == (effect_index(self) + 1) % 5,
    {
        match self {
            EdgeEffect::NoEffect => EdgeEffect::Dopamine,
            EdgeEffect::Dopamine => EdgeEffect::Hurt,
            EdgeEffect::Hurt => EdgeEffect::Heal,
            EdgeEffect::Heal => EdgeEffect::Energy,
            EdgeEffect::Energy => EdgeEffect::NoEffect,
        }
    }

    pub fn label(self) -> (s: &'static str)
        ensures
            s@ == match self {
                EdgeEffect::NoEffect => "žádný"@,
                EdgeEffect::Dopamine => "dopamin"@,
                EdgeEffect::Hurt => "poškození"@,
                EdgeEffect::Heal => "léčení"@,
                EdgeEffect::Energy => "energie"@,
            },
    {
        match self {
            EdgeEffect::NoEffect => "žádný",
            EdgeEffect::Dopamine => "dopamin",
            EdgeEffect::Hurt => "poškození",
            EdgeEffect::Heal => "léčení",
            EdgeEffect::Energy => "energie",
        }
    }
}

/// An edge effect is determined by its place in the cycle.
pub proof fn law_effect_index_injective(a: EdgeEffect, b: EdgeEffect)
    ensures
        effect_index(a) == effect_index(b) ==> a == b,
        0 <= effect_index(a) < 5,
{
}


/// Population cap of the dish table.
pub const MAX_POP: usize = 96;

/// Organism `j` may father a child with `i`: another organism of the same
/// dish, not yet spoken for, that wants a child and is close and similar
/// enough (`match_ok[i][j]`, judged by the caller).
pub open spec fn may_mate(
    used: Seq<bool>,
    wants: Seq<bool>,
    dish: Seq<u32>,
    match_ok: Seq<Seq<bool>>,
    i: int,
    j: int,
) -> bool {
    &&& j != i
    &&& !used[j]
    &&& dish[j] == dish[i]
    &&& wants[j]
    &&& match_ok[i][j]
}

/// Lowest index `j >= from` that may mate with `i`, or `n` if none.
pub open spec fn first_mate(
    used: Seq<bool>,
    wants: Seq<bool>,
    dish: Seq<u32>,
    match_ok: Seq<Seq<bool>>,
    i: int,
    from: int,
    n: int,
) -> int
    decreases n - from,
{
    if from >= n {
        n
    } else if may_mate(used, wants, dish, match_ok, i, from) {
        from
    } else {
        first_mate(used, wants, dish, match_ok, i, from + 1, n)
    }
}

/// The birth plans after scanning organisms `0..k`: each organism that wants a
/// child and is not yet spoken for pairs with the lowest-index partner that may
/// mate with it (or plans alone); both are then spoken for. The scan stops once
/// the population with the planned children would reach the cap.
/// Result: `(spoken for, plans, stopped)`.
pub open spec fn birth_scan(
    wants: Seq<bool>,
    dish: Seq<u32>,
    match_ok: Seq<Seq<bool>>,
    k: int,
) -> (Seq<bool>, Seq<(int, Option<int>)>, bool)
    decreases k,
{
    let n = wants.len() as int;
    if k <= 0 {
        (Seq::new(n as nat, |x: int| false), Seq::empty(), false)
    } else {
        let (used, plans, stopped) = birth_scan(wants, dish, match_ok, k - 1);
        let i = k - 1;
        if stopped || used[i] || !wants[i] {
            (used, plans, stopped)
        } else {
            let j = first_mate(used, wants, dish, match_ok, i, 0, n);
            let used2 = if j < n { used.update(j, true) } else { used };
            let plans2 = plans.push((i, if j < n { Some(j) } else { None }));
            (used2.update(i, true), plans2, n + plans2.len() >= MAX_POP)
        }
    }
}

/// Who has a child this step, as `(parent, mate)` pairs in parent order, for
/// `wants[i]` (organism `i` wants a child), `dish[i]` (its dish) and
/// `match_ok[i][j]` (organisms `i` and `j` are close and similar enough).
/// Nothing is planned when the dish is empty or full.
pub fn plan_births(wants: &Vec<bool>, dish: &Vec<u32>, match_ok: &Vec<Vec<bool>>) -> (plans: Vec<(usize, Option<usize>)>)
    requires
        dish.len() == wants.len(),
        match_ok.len() == wants.len(),
        forall|i: int| 0 <= i < match_ok.len() ==> #[trigger] match_ok[i].len() == wants.len(),
    ensures
        wants.len() == 0 || wants.len() >= MAX_POP ==> plans.len() == 0,
        wants.len() > 0 && wants.len() < MAX_POP ==> plans.len() == birth_scan(
            wants@,
            dish@,
            match_ok@.map_values(|r: Vec<bool>| r@),
            wants.len() as int,
        ).1.len() && forall|q: int|
            0 <= q < plans.len() ==> (#[trigger] plans[q]).0 as int == birth_scan(
                wants@,
                dish@,
                match_ok@.map_values(|r: Vec<bool>| r@),
                wants.len() as int,
            ).1[q].0 && match plans[q].1 {
                Some(j) => birth_scan(wants@, dish@, match_ok@.map_values(|r: Vec<bool>| r@), wants.len() as int).1[q].1 == Some(j as int),
                None => birth_scan(wants@, dish@, match_ok@.map_values(|r: Vec<bool>| r@), wants.len() as int).1[q].1 is None,
            },
{
    let n = wants.len();
    let mut plans: Vec<(usize, Option<usize>)> = Vec::new();
    if n == 0 || n >= MAX_POP {
        return plans;
    }
    let ghost m = match_ok@.map_values(|r: Vec<bool>| r@);
    let mut used: Vec<bool> = Vec::new();
    for x in 0..n
        invariant
            used.len() == x,
            forall|y: int| 0 <= y < x ==> !used[y],
    {
        used.push(false);
    }
    assert(used@ =~= birth_scan(wants@, dish@, m, 0).0);
    let mut stopped = false;
    let mut i: usize = 0;
    while i < n && !stopped
        invariant
            n == wants.len() == dish.len() == match_ok.len(),
            0 < n < MAX_POP,
            i <= n,
            m == match_ok@.map_values(|r: Vec<bool>| r@),
            forall|x: int| 0 <= x < match_ok.len() ==> #[trigger] match_ok[x].len() == n,
            used@ == birth_scan(wants@, dish@, m, i as int).0,
            stopped == birth_scan(wants@, dish@, m, i as int).2,
            plans.len() == birth_scan(wants@, dish@, m, i as int).1.len(),
            plans.len() <= i,
            forall|q: int|
                0 <= q < plans.len() ==> (#[trigger] plans[q]).0 as int == birth_scan(wants@, dish@, m, i as int).1[q].0
                    && match plans[q].1 {
                    Some(j) => birth_scan(wants@, dish@, m, i as int).1[q].1 == Some(j as int),
                    None => birth_scan(wants@, dish@, m, i as int).1[q].1 is None,
                },
        decreases n - i,
    {
        proof {
            lemma_birth_scan_len(wants@, dish@, m, i as int);
        }
        if used[i] || !wants[i] {
            i = i + 1;
            continue;
        }
        let mut j: usize = 0;
        while j < n && !(j != i && !used[j] && dish[j] == dish[i] && wants[j] && match_ok[i][j])
            invariant
                n == wants.len() == dish.len() == match_ok.len(),
                i < n,
                j <= n,
                used.len() == n,
                match_ok[i as int].len() == n,
                m == match_ok@.map_values(|r: Vec<bool>| r@),
                forall|x: int| 0 <= x < match_ok.len() ==> #[trigger] match_ok[x].len() == n,
                first_mate(used@, wants@, dish@, m, i as int, 0, n as int) == first_mate(used@, wants@, dish@, m, i as int, j as int, n as int),
            decreases n - j,
        {
            assert(m[i as int][j as int] == match_ok[i as int][j as int]);
            j = j + 1;
        }
        proof {
            if j < n {
                assert(m[i as int][j as int] == match_ok[i as int][j as int]);
            }
        }
        let mate = if j < n { Some(j) } else { None };
        if j < n {
            used.set(j, true);
        }
        used.set(i, true);
        plans.push((i, mate));
        stopped = n + plans.len() >= MAX_POP;
        i = i + 1;
    }
    proof {
        lemma_birth_scan_stops(wants@, dish@, m, i as int, n as int);
    }
    plans
}

proof fn lemma_first_mate_range(used: Seq<bool>, wants: Seq<bool>, dish: Seq<u32>, match_ok: Seq<Seq<bool>>, i: int, from: int, n: int)
    requires
        from <= n,
    ensures
        from <= first_mate(used, wants, dish, match_ok, i, from, n) <= n,
    decreases n - from,
{
    if from < n {
        lemma_first_mate_range(used, wants, dish, match_ok, i, from + 1, n);
    }
}

proof fn lemma_birth_scan_len(wants: Seq<bool>, dish: Seq<u32>, match_ok: Seq<Seq<bool>>, k: int)
    requires
        k <= wants.len(),
    ensures
        birth_scan(wants, dish, match_ok, k).0.len() == wants.len(),
        k >= 0 ==> birth_scan(wants, dish, match_ok, k).1.len() <= k,
    decreases k,
{
    if k > 0 {
        lemma_birth_scan_len(wants, dish, match_ok, k - 1);
        let used = birth_scan(wants, dish, match_ok, k - 1).0;
        lemma_first_mate_range(used, wants, dish, match_ok, k - 1, 0, wants.len() as int);
    }
}

proof fn lemma_birth_scan_stops(wants: Seq<bool>, dish: Seq<u32>, match_ok: Seq<Seq<bool>>, k: int, n: int)
    requires
        0 <= k <= n,
        birth_scan(wants, dish, match_ok, k).2 || k == n,
    ensures
        birth_scan(wants, dish, match_ok, n) == birth_scan(wants, dish, match_ok, k),
    decreases n - k,
{
    if k < n {
        lemma_birth_scan_stops(wants, dish, match_ok, k + 1, n);
    }
}


proof fn lemma_first_mate_ok(used: Seq<bool>, wants: Seq<bool>, dish: Seq<u32>, match_ok: Seq<Seq<bool>>, i: int, from: int, n: int)
    requires
        0 <= from <= n,
    ensures
        first_mate(used, wants, dish, match_ok, i, from, n) < n ==> may_mate(used, wants, dish, match_ok, i, first_mate(used, wants, dish, match_ok, i, from, n)),
        forall|j: int| from <= j < first_mate(used, wants, dish, match_ok, i, from, n) ==> !may_mate(used, wants, dish, match_ok, i, j),
    decreases n - from,
{
    if from < n {
        lemma_first_mate_ok(used, wants, dish, match_ok, i, from + 1, n);
    }
}

/// Who takes part in plan `p`: the parent, and the mate if there is one.
pub open spec fn in_plan(p: (int, Option<int>), x: int) -> bool {
    p.0 == x || p.1 == Some(x)
}

/// Births pair organisms sensibly: every parent wants a child; a mate is
/// another organism of the parent's dish that wants a child and that the
/// caller judged close and similar enough; nobody takes part in two births;
/// and the planned children never push the population past the cap.
pub proof fn law_birth_plans_sound(wants: Seq<bool>, dish: Seq<u32>, match_ok: Seq<Seq<bool>>, k: int)
    requires
        0 <= k <= wants.len(),
        dish.len() == wants.len(),
        wants.len() < MAX_POP,
    ensures
        ({
            let (used, plans, stopped) = birth_scan(wants, dish, match_ok, k);
            &&& forall|q: int| 0 <= q < plans.len() ==> wants[#[trigger] plans[q].0] && 0 <= plans[q].0 < k
            &&& forall|q: int|
                0 <= q < plans.len() ==> ((#[trigger] plans[q]).1 matches Some(j) ==> j != plans[q].0 && 0 <= j
                    < wants.len() && wants[j] && dish[j] == dish[plans[q].0] && match_ok[plans[q].0][j])
            &&& forall|q1: int, q2: int, x: int|
                0 <= q1 < q2 < plans.len() && #[trigger] in_plan(plans[q1], x) ==> !#[trigger] in_plan(plans[q2], x)
            &&& forall|q: int, x: int| 0 <= q < plans.len() && #[trigger] in_plan(plans[q], x) && 0 <= x < wants.len() ==> used[x]
            &&& forall|q: int, x: int| 0 <= q < plans.len() && #[trigger] in_plan(plans[q], x) ==> 0 <= x < wants.len()
            &&& wants.len() + plans.len() <= MAX_POP
            &&& (stopped <==> wants.len() + plans.len() == MAX_POP)
        }),
    decreases k,
{
    let n = wants.len() as int;
    if k > 0 {
        law_birth_plans_sound(wants, dish, match_ok, k - 1);
        lemma_birth_scan_len(wants, dish, match_ok, k - 1);
        let (used, plans, stopped) = birth_scan(wants, dish, match_ok, k - 1);
        let i = k - 1;
        if !(stopped || used[i] || !wants[i]) {
            let j = first_mate(used, wants, dish, match_ok, i, 0, n);
            lemma_first_mate_range(used, wants, dish, match_ok, i, 0, n);
            lemma_first_mate_ok(used, wants, dish, match_ok, i, 0, n);
            let used2 = if j < n { used.update(j, true) } else { used };
            let np = (i, if j < n { Some(j) } else { None });
            let plans2 = plans.push(np);
            assert forall|q1: int, q2: int, x: int|
                0 <= q1 < q2 < plans2.len() && #[trigger] in_plan(plans2[q1], x) implies !#[trigger] in_plan(plans2[q2], x) by {
                if q2 == plans.len() {
                    assert(used[x]);
                }
            }
        }
    } else {
        assert(birth_scan(wants, dish, match_ok, 0).1.len() == 0);
    }
}


/// Meal `f` of dish `d` is already claimed in `taken`.
pub open spec fn claimed(taken: Seq<(int, int, int)>, d: int, f: int) -> bool {
    exists|q: int| 0 <= q < taken.len() && (#[trigger] taken[q]).1 == d && taken[q].2 == f
}

/// The first meal `f >= from` of dish `d` that is uneaten, unclaimed and within
/// reach of the mouth (`reach[f]`), or `alive.len()` if none.
pub open spec fn first_meal(taken: Seq<(int, int, int)>, d: int, alive: Seq<bool>, reach: Seq<bool>, from: int) -> int
    decreases alive.len() - from,
{
    if from >= alive.len() {
        alive.len() as int
    } else if alive[from] && !claimed(taken, d, from) && reach[from] {
        from
    } else {
        first_meal(taken, d, alive, reach, from + 1)
    }
}

/// Meals claimed after organisms `0..k` took their turn, as
/// `(organism, dish, meal)`: an organism with an open mouth in a known dish
/// claims the first meal of its dish that is uneaten, not yet claimed and
/// touches its head.
pub open spec fn meal_scan(
    open: Seq<bool>,
    dish_of: Seq<Option<usize>>,
    alive: Seq<Seq<bool>>,
    reach: Seq<Seq<bool>>,
    k: int,
) -> Seq<(int, int, int)>
    decreases k,
{
    if k <= 0 {
        Seq::empty()
    } else {
        let taken = meal_scan(open, dish_of, alive, reach, k - 1);
        let o = k - 1;
        if !open[o] || dish_of[o] is None {
            taken
        } else {
            let d = dish_of[o]->Some_0 as int;
            let f = first_meal(taken, d, alive[d], reach[o], 0);
            if f < alive[d].len() {
                taken.push((o, d, f))
            } else {
                taken
            }
        }
    }
}

/// The rows of a table of flags, as sequences.
pub open spec fn rows(t: Seq<Vec<bool>>) -> Seq<Seq<bool>> {
    t.map_values(|r: Vec<bool>| r@)
}

/// Claimed meals as triples of integers.
pub open spec fn as_triples(t: Seq<(usize, usize, usize)>) -> Seq<(int, int, int)> {
    t.map_values(|x: (usize, usize, usize)| (x.0 as int, x.1 as int, x.2 as int))
}

fn meal_claimed(taken: &Vec<(usize, usize, usize)>, d: usize, f: usize) -> (used: bool)
    ensures
        used == claimed(as_triples(taken@), d as int, f as int),
{
    let ghost tv = as_triples(taken@);
    let mut q: usize = 0;
    while q < taken.len()
        invariant
            q <= taken.len(),
            tv == as_triples(taken@),
            forall|x: int| 0 <= x < q ==> !((#[trigger] tv[x]).1 == d && tv[x].2 == f),
        decreases taken.len() - q,
    {
        let (_, dd, ff) = taken[q];
        assert(tv[q as int] == (taken[q as int].0 as int, dd as int, ff as int));
        if dd == d && ff == f {
            return true;
        }
        q = q + 1;
    }
    false
}

fn pick_meal(taken: &Vec<(usize, usize, usize)>, d: usize, alive: &Vec<bool>, reach: &Vec<bool>) -> (f: usize)
    requires
        alive.len() == reach.len(),
    ensures
        f == first_meal(as_triples(taken@), d as int, alive@, reach@, 0),
{
    let ghost tv = as_triples(taken@);
    let m = alive.len();
    let mut f: usize = 0;
    while f < m
        invariant
            f <= m == alive.len() == reach.len(),
            tv == as_triples(taken@),
            first_meal(tv, d as int, alive@, reach@, 0) == first_meal(tv, d as int, alive@, reach@, f as int),
        decreases m - f,
    {
        if alive[f] && reach[f] && !meal_claimed(taken, d, f) {
            return f;
        }
        f = f + 1;
    }
    m
}

/// Which organisms eat which meal this step: `open[o]` (mouth open wide
/// enough), `dish_of[o]` (index of the organism's dish, if it still exists),
/// `alive[d][f]` (meal `f` of dish `d` is uneaten) and `reach[o][f]` (meal `f`
/// of its dish touches the organism's head). One particle feeds one mouth.
pub fn assign_meals(
    open: &Vec<bool>,
    dish_of: &Vec<Option<usize>>,
    alive: &Vec<Vec<bool>>,
    reach: &Vec<Vec<bool>>,
) -> (taken: Vec<(usize, usize, usize)>)
    requires
        dish_of.len() == open.len(),
        reach.len() == open.len(),
        forall|o: int|
            0 <= o < open.len() ==> (#[trigger] dish_of[o] matches Some(d) ==> d < alive.len() && reach[o].len() == alive[d as int].len()),
    ensures
        as_triples(taken@) == meal_scan(open@, dish_of@, rows(alive@), rows(reach@), open.len() as int),
{
    let ghost al = rows(alive@);
    let ghost re = rows(reach@);
    let mut taken: Vec<(usize, usize, usize)> = Vec::new();
    let n = open.len();
    assert(as_triples(taken@) =~= meal_scan(open@, dish_of@, al, re, 0));
    for o in 0..n
        invariant
            n == open.len() == dish_of.len() == reach.len(),
            al == rows(alive@),
            re == rows(reach@),
            forall|x: int|
                0 <= x < open.len() ==> (#[trigger] dish_of[x] matches Some(d) ==> d < alive.len() && reach[x].len() == alive[d as int].len()),
            as_triples(taken@) == meal_scan(open@, dish_of@, al, re, o as int),
    {
        let ghost before = taken@;
        if open[o] {
            match dish_of[o] {
                Some(d) => {
                    let f = pick_meal(&taken, d, &alive[d], &reach[o]);
                    assert(al[d as int] == alive@[d as int]@);
                    assert(re[o as int] == reach@[o as int]@);
                    if f < alive[d].len() {
                        taken.push((o, d, f));
                        assert(as_triples(taken@) =~= as_triples(before).push((o as int, d as int, f as int)));
                    }
                },
                None => {},
            }
        }
    }
    taken
}

/// Organism `o` eats one of the meals in `taken`.
pub open spec fn eats(taken: Seq<(int, int, int)>, o: int) -> bool {
    exists|q: int| 0 <= q < taken.len() && (#[trigger] taken[q]).0 == o
}

proof fn lemma_first_meal(taken: Seq<(int, int, int)>, d: int, alive: Seq<bool>, reach: Seq<bool>, from: int)
    requires
        0 <= from <= alive.len(),
    ensures
        from <= first_meal(taken, d, alive, reach, from) <= alive.len(),
        first_meal(taken, d, alive, reach, from) < alive.len() ==> ({
            let f = first_meal(taken, d, alive, reach, from);
            alive[f] && reach[f] && !claimed(taken, d, f)
        }),
        forall|f: int|
            from <= f < first_meal(taken, d, alive, reach, from) ==> !(alive[f] && reach[f] && !claimed(taken, d, f)),
    decreases alive.len() - from,
{
    if from < alive.len() {
        lemma_first_meal(taken, d, alive, reach, from + 1);
    }
}

/// Feeding is fair and exclusive: organisms take their turn in order and each
/// eats at most once; an eaten meal was uneaten, lies in the eater's own dish
/// and touches its open mouth; no meal feeds two mouths; and an open mouth in a
/// dish that goes hungry had every uneaten meal within its reach already taken
/// by an organism before it.
pub proof fn law_meals_sound(
    open: Seq<bool>,
    dish_of: Seq<Option<usize>>,
    alive: Seq<Seq<bool>>,
    reach: Seq<Seq<bool>>,
    k: int,
)
    requires
        0 <= k <= open.len(),
        dish_of.len() == open.len(),
        reach.len() == open.len(),
        forall|o: int|
            0 <= o < open.len() ==> (#[trigger] dish_of[o] matches Some(d) ==> d < alive.len() && reach[o].len() == alive[d as int].len()),
    ensures
        ({
            let taken = meal_scan(open, dish_of, alive, reach, k);
            &&& forall|q: int|
                0 <= q < taken.len() ==> ({
                    let (o, d, f) = #[trigger] taken[q];
                    &&& 0 <= o < k
                    &&& open[o]
                    &&& dish_of[o] == Some(d as usize)
                    &&& 0 <= d < alive.len()
                    &&& 0 <= f < alive[d].len()
                    &&& alive[d][f]
                    &&& reach[o][f]
                })
            &&& forall|q1: int, q2: int| 0 <= q1 < q2 < taken.len() ==> (#[trigger] taken[q1]).0 < (#[trigger] taken[q2]).0
            &&& forall|q1: int, q2: int|
                0 <= q1 < q2 < taken.len() ==> !((#[trigger] taken[q1]).1 == (#[trigger] taken[q2]).1 && taken[q1].2 == taken[q2].2)
            &&& forall|o: int, f: int|
                0 <= o < k && open[o] && dish_of[o] is Some && !eats(taken, o) && 0 <= f < reach[o].len()
                    && alive[dish_of[o]->Some_0 as int][f] && #[trigger] reach[o][f] ==> claimed(
                    taken,
                    dish_of[o]->Some_0 as int,
                    f,
                )
        }),
    decreases k,
{
    if k > 0 {
        law_meals_sound(open, dish_of, alive, reach, k - 1);
        let before = meal_scan(open, dish_of, alive, reach, k - 1);
        let taken = meal_scan(open, dish_of, alive, reach, k);
        let o = k - 1;
        if open[o] && dish_of[o] is Some {
            let d = dish_of[o]->Some_0 as int;
            lemma_first_meal(before, d, alive[d], reach[o], 0);
            let f = first_meal(before, d, alive[d], reach[o], 0);
            if f < alive[d].len() {
                assert(taken == before.push((o, d, f)));
                assert forall|q1: int, q2: int|
                    0 <= q1 < q2 < taken.len() implies !((#[trigger] taken[q1]).1 == (#[trigger] taken[q2]).1 && taken[q1].2
                        == taken[q2].2) by {
                    if q2 == before.len() && taken[q1].1 == d && taken[q1].2 == f {
                        assert(claimed(before, d, f));
                    }
                }
                assert forall|oo: int, ff: int|
                    0 <= oo < k && open[oo] && dish_of[oo] is Some && !eats(taken, oo) && 0 <= ff < reach[oo].len()
                        && alive[dish_of[oo]->Some_0 as int][ff] && #[trigger] reach[oo][ff] implies claimed(
                        taken,
                        dish_of[oo]->Some_0 as int,
                        ff,
                    ) by {
                    let dd = dish_of[oo]->Some_0 as int;
                    if oo < o {
                        assert(!eats(before, oo)) by {
                            if eats(before, oo) {
                                let q = choose|q: int| 0 <= q < before.len() && (#[trigger] before[q]).0 == oo;
                                assert(taken[q] == before[q]);
                            }
                        }
                        let q = choose|q: int| 0 <= q < before.len() && (#[trigger] before[q]).1 == dd && before[q].2 == ff;
                        assert(taken[q] == before[q]);
                    } else {
                        assert(taken[before.len() as int].0 == oo);
                    }
                }
            } else {
                assert(taken == before);
                assert forall|oo: int, ff: int|
                    0 <= oo < k && open[oo] && dish_of[oo] is Some && !eats(taken, oo) && 0 <= ff < reach[oo].len()
                        && alive[dish_of[oo]->Some_0 as int][ff] && #[trigger] reach[oo][ff] implies claimed(
                        taken,
                        dish_of[oo]->Some_0 as int,
                        ff,
                    ) by {
                    if oo == o {
                        assert(!(alive[d][ff] && reach[o][ff] && !claimed(before, d, ff)));
                    }
                }
            }
        }
    }
}

/// The order the bodies `items` end in when, scanning from position `i`, each
/// dead body is replaced by the last one (which is then scanned in its place).
pub open spec fn swept(items: Seq<int>, dead: Seq<bool>, i: int) -> Seq<int>
    decreases items.len() - i,
{
    if i < 0 || i >= items.len() {
        items
    } else if dead[items[i]] {
        swept(items.update(i, items.last()).drop_last(), dead, i)
    } else {
        swept(items, dead, i + 1)
    }
}

/// Bodies `0..n` in order.
pub open spec fn in_order(n: int) -> Seq<int> {
    Seq::new(n as nat, |k: int| k)
}

/// Which bodies stay, and in what order, when the dead ones (`dead[x]`) are
/// removed by swapping the last body into each gap. The result lists old
/// indices.
pub fn sweep_dead(dead: &Vec<bool>) -> (kept: Vec<usize>)
    ensures
        kept@.map_values(|x: usize| x as int) == swept(in_order(dead.len() as int), dead@, 0),
{
    let n = dead.len();
    let mut kept: Vec<usize> = Vec::new();
    for k in 0..n
        invariant
            kept.len() == k,
            forall|q: int| 0 <= q < k ==> kept[q] == q,
    {
        kept.push(k);
    }
    assert(kept@.map_values(|x: usize| x as int) =~= in_order(n as int));
    let mut i: usize = 0;
    while i < kept.len()
        invariant
            i <= kept.len(),
            n == dead.len(),
            forall|q: int| 0 <= q < kept.len() ==> kept[q] < n,
            swept(kept@.map_values(|x: usize| x as int), dead@, i as int) == swept(in_order(n as int), dead@, 0),
        decreases kept.len() - i,
    {
        let ghost before = kept@.map_values(|x: usize| x as int);
        if dead[kept[i]] {
            let last = kept.len() - 1;
            let moved = kept[last];
            kept.set(i, moved);
            kept.pop();
            assert(kept@.map_values(|x: usize| x as int) =~= before.update(i as int, before.last()).drop_last());
        } else {
            i = i + 1;
        }
    }
    kept
}

proof fn lemma_swept_keeps(items: Seq<int>, dead: Seq<bool>, i: int, n: int)
    requires
        0 <= i <= items.len(),
        forall|q: int| 0 <= q < items.len() ==> 0 <= #[trigger] items[q] < n,
        dead.len() == n,
        forall|q1: int, q2: int| 0 <= q1 < q2 < items.len() ==> #[trigger] items[q1] != #[trigger] items[q2],
        forall|q: int| 0 <= q < i ==> !dead[#[trigger] items[q]],
    ensures
        forall|q: int| 0 <= q < swept(items, dead, i).len() ==> 0 <= #[trigger] swept(items, dead, i)[q] < n,
        forall|q1: int, q2: int|
            0 <= q1 < q2 < swept(items, dead, i).len() ==> #[trigger] swept(items, dead, i)[q1] != #[trigger] swept(
                items,
                dead,
                i,
            )[q2],
        forall|x: int| 0 <= x < n ==> (swept(items, dead, i).contains(x) <==> (items.contains(x) && !dead[x])),
    decreases items.len() - i,
{
    if i < items.len() {
        if dead[items[i]] {
            let next = items.update(i, items.last()).drop_last();
            assert forall|q1: int, q2: int| 0 <= q1 < q2 < next.len() implies #[trigger] next[q1] != #[trigger] next[q2] by {
                if q1 == i {
                    assert(next[q1] == items[items.len() - 1]);
                    assert(next[q2] == items[q2]);
                } else if q2 == i {
                    assert(next[q2] == items[items.len() - 1]);
                    assert(next[q1] == items[q1]);
                } else {
                    assert(next[q1] == items[q1] && next[q2] == items[q2]);
                }
            }
            assert forall|q: int| 0 <= q < i implies !dead[#[trigger] next[q]] by {
                assert(next[q] == items[q]);
            }
            lemma_swept_keeps(next, dead, i, n);
            assert forall|x: int| 0 <= x < n implies (next.contains(x) && !dead[x]) == (items.contains(x) && !dead[x]) by {
                if items.contains(x) && !dead[x] {
                    let q = choose|q: int| 0 <= q < items.len() && items[q] == x;
                    if q == items.len() - 1 {
                        if i < items.len() - 1 {
                            assert(next[i] == x);
                        }
                    } else {
                        assert(q != i);
                        assert(next[q] == x);
                    }
                }
                if next.contains(x) {
                    let q = choose|q: int| 0 <= q < next.len() && next[q] == x;
                    if q == i {
                        assert(items[items.len() - 1] == x);
                    } else {
                        assert(items[q] == x);
                    }
                }
            }
        } else {
            lemma_swept_keeps(items, dead, i + 1, n);
        }
    } else {
        assert forall|x: int| 0 <= x < n implies (items.contains(x) <==> (items.contains(x) && !dead[x])) by {
            if items.contains(x) {
                let q = choose|q: int| 0 <= q < items.len() && items[q] == x;
                assert(!dead[items[q]]);
            }
        }
    }
}

/// Removing the dead keeps every living body exactly once and no dead one.
pub proof fn law_sweep_keeps_the_living(dead: Seq<bool>)
    ensures
        forall|q1: int, q2: int|
            0 <= q1 < q2 < swept(in_order(dead.len() as int), dead, 0).len() ==> #[trigger] swept(
                in_order(dead.len() as int),
                dead,
                0,
            )[q1] != #[trigger] swept(in_order(dead.len() as int), dead, 0)[q2],
        forall|x: int|
            0 <= x < dead.len() ==> (swept(in_order(dead.len() as int), dead, 0).contains(x) <==> !dead[x]),
        forall|q: int|
            0 <= q < swept(in_order(dead.len() as int), dead, 0).len() ==> 0 <= #[trigger] swept(
                in_order(dead.len() as int),
                dead,
                0,
            )[q] < dead.len(),
{
    let n = dead.len() as int;
    let items = in_order(n);
    lemma_swept_keeps(items, dead, 0, n);
    assert forall|x: int| 0 <= x < n implies items.contains(x) by {
        assert(items[x] == x);
    }
}

} // verus!
