//! The evolutionary engine: tours, the three crossover operators,
//! mutation, and the generational loop.

use vstd::prelude::*;
use rand::rngs::StdRng;
use crate::fitness::{
    path_cost, valid_cities, City, Fitness, EDGE_MAX, MAX_CITIES,
};
use crate::fitness::edge_cost_exec;
use crate::perm::{
    is_permutation, lemma_covering_len, lemma_distinct_bounded_len, lemma_distinct_missing_len,
    lemma_insert_to_multiset, lemma_multiset_preserves_permutation, lemma_permutation_contains,
    lemma_swap_is_permutation,
};
use crate::rng::{rand_below, rand_ratio, rng_from_seed, shuffle_usizes};

verus! {

broadcast use {
    vstd::seq_lib::lemma_seq_contains_after_push,
    vstd::seq_lib::group_to_multiset_ensures,
};

/// One candidate solution: an ordering of all cities plus its cached
/// fitness. The order is always a permutation of `0..N`, and the cached
/// fitness always matches the order — a stale fitness is a defect.
pub struct Path {
    fitness: Fitness,
    order: Vec<usize>,
}

/// The mathematical value of a `Path`.
pub struct PathV {
    pub fitness: Fitness,
    pub order: Seq<usize>,
}

impl View for Path {
    type V = PathV;

    closed spec fn view(&self) -> PathV {
        PathV { fitness: self.fitness, order: self.order@ }
    }
}

impl PathV {
    /// Well-formed against a city list: the order is a permutation of all
    /// city indices and the cached fitness is the fitness of that order.
    pub open spec fn wf(self, cities: Seq<City>) -> bool {
        &&& is_permutation(self.order, cities.len())
        &&& self.fitness.denom as int == path_cost(self.order, cities)
    }
}

/// The father's genes, in the father's order, with the genes of `head`
/// left out.
pub open spec fn father_remainder(father: Seq<usize>, head: Seq<usize>) -> Seq<usize> {
    father.filter(|g: usize| !head.contains(g))
}

/// The single-point crossover relation: the mother's first `k` genes
/// verbatim, then the father's remaining genes in the father's order.
pub open spec fn single_point_child(mother: Seq<usize>, father: Seq<usize>, k: int) -> Seq<usize> {
    mother.take(k) + father_remainder(father, mother.take(k))
}

/// `sel` is a set of distinct positions, half of them (rounded down), at
/// which the child carries the mother's genes verbatim.
pub open spec fn copies_mother_at(child: Seq<usize>, mother: Seq<usize>, sel: Seq<usize>) -> bool {
    &&& sel.no_duplicates()
    &&& sel.len() == mother.len() / 2
    &&& forall|q: int|
        0 <= q < sel.len() ==> (#[trigger] sel[q]) < mother.len() && child[sel[q] as int]
            == mother[sel[q] as int]
}

/// The child carries the mother's genes verbatim over the window
/// `[start, end)`.
pub open spec fn copies_mother_window(
    child: Seq<usize>,
    mother: Seq<usize>,
    start: int,
    end: int,
) -> bool {
    &&& 0 <= start <= end <= mother.len()
    &&& forall|i: int| start <= i < end ==> child[i] == mother[i]
}

/// Outside the window the child keeps the father's gene, except where
/// that gene already sits in the child: among the mother's window genes,
/// or placed at an earlier outside position.
pub open spec fn pmx_outside(
    child: Seq<usize>,
    mother: Seq<usize>,
    father: Seq<usize>,
    start: int,
    end: int,
    p: int,
) -> bool {
    ||| child[p] == father[p]
    ||| mother.subrange(start, end).contains(father[p])
    ||| (exists|q: int| 0 <= q < p && !(start <= q < end) && child[q] == father[p])
}

/// The PMX shape: the mother's window verbatim, and outside it the
/// father's gene at every position where that gene is not already in the
/// child.
pub open spec fn pmx_shaped(
    child: Seq<usize>,
    mother: Seq<usize>,
    father: Seq<usize>,
    start: int,
    end: int,
) -> bool {
    &&& copies_mother_window(child, mother, start, end)
    &&& forall|p: int|
        0 <= p < child.len() && !(start <= p < end) ==> pmx_outside(
            child,
            mother,
            father,
            start,
            end,
            p,
        )
}

/// `next` is `base` unchanged, or `base` with two positions exchanged and
/// the fitness recomputed — the one step `mutate` may take.
pub open spec fn mutated_of(next: PathV, base: PathV, cities: Seq<City>) -> bool {
    ||| next == base
    ||| (exists|i: int, j: int|
        0 <= i < base.order.len() && 0 <= j < base.order.len() && next.order == base.order.update(
            i,
            base.order[j],
        ).update(j, base.order[i]) && next.fitness.denom as int == path_cost(next.order, cities))
}

/// `sorted` is the population ranked best-first: the same tours, in
/// ascending order of their fitness denominators.
pub open spec fn ranked_of(sorted: Seq<PathV>, pop: Seq<PathV>) -> bool {
    &&& sorted.len() == pop.len()
    &&& sorted.to_multiset() == pop.to_multiset()
    &&& forall|a: int, b: int|
        0 <= a <= b < sorted.len() ==> (#[trigger] sorted[a]).fitness.denom <= (
        #[trigger] sorted[b]).fitness.denom
}

/// How many top-ranked tours survive a generation unchanged (before
/// mutation): the survival rate's share of the breeding pool, the pool
/// clamped to at least one member and the survivors to at most all but
/// the two diversity slots, so the generation's slots always add up.
pub open spec fn surviving_count(p: int, crossover_rate: Rate, survival_rate: Rate) -> int {
    let b0 = crossover_rate.scale_spec(p);
    let b = if b0 < 1 {
        1int
    } else {
        b0
    };
    let s0 = survival_rate.scale_spec(b);
    if s0 > p - 2 {
        p - 2
    } else {
        s0
    }
}

/// The composition spec gives a generation, relative to a ranking of the
/// old population: the top `s` ranked tours head the new generation and
/// the two weakest close it, each possibly hit by one swap mutation with
/// its fitness recomputed; the slots between hold the offspring.
pub open spec fn generation_from(
    newp: Seq<PathV>,
    sorted: Seq<PathV>,
    cities: Seq<City>,
    crossover_rate: Rate,
    survival_rate: Rate,
) -> bool {
    let p = sorted.len() as int;
    let s = surviving_count(p, crossover_rate, survival_rate);
    &&& newp.len() == p
    &&& forall|k: int| 0 <= k < s ==> mutated_of(#[trigger] newp[k], sorted[k], cities)
    &&& mutated_of(newp[p - 2], sorted[p - 2], cities)
    &&& mutated_of(newp[p - 1], sorted[p - 1], cities)
}

/// One generation's state transition: some ranking of the old population
/// whose elites and two weakest tours stand where the composition rules
/// put them.
pub open spec fn generation_composed(
    newp: Seq<PathV>,
    oldp: Seq<PathV>,
    cities: Seq<City>,
    crossover_rate: Rate,
    survival_rate: Rate,
) -> bool {
    exists|sorted: Seq<PathV>|
        ranked_of(sorted, oldp) && generation_from(newp, sorted, cities, crossover_rate,
        survival_rate)
}

/// `champ` is a fittest member of `pop`.
pub open spec fn fittest_of(champ: PathV, pop: Seq<PathV>) -> bool {
    &&& exists|i: int| 0 <= i < pop.len() && champ == pop[i]
    &&& forall|j: int|
        0 <= j < pop.len() ==> (#[trigger] pop[j]).fitness.denom >= champ.fitness.denom
}

/// Fitness orders tours opposite to their total edge length: of two
/// well-formed tours over the same cities, the fitter one is exactly the
/// shorter one — fitness is monotonically non-increasing in the length.
pub proof fn lemma_fitness_antitone_in_length(a: PathV, b: PathV, cities: Seq<City>)
    requires
        a.wf(cities),
        b.wf(cities),
    ensures
        a.fitness.spec_higher_than(b.fitness) <==> path_cost(a.order, cities) < path_cost(
            b.order,
            cities,
        ),
{
}

impl Path {
    pub fn fitness(&self) -> (f: Fitness)
        ensures
            f == self@.fitness,
    {
        self.fitness
    }

    pub fn order(&self) -> (o: &Vec<usize>)
        ensures
            o@ == self@.order,
    {
        &self.order
    }

    /// An equal copy (the order is copied element by element).
    pub fn duplicate(&self) -> (r: Path)
        ensures
            r@ == self@,
    {
        let order = self.order.clone();
        proof {
            assert(order@ =~= self.order@);
        }
        Path { fitness: self.fitness, order }
    }

    /// The fitness of `order` over `city_list`: the reciprocal of the
    /// total edge length, carried as that length (the denominator). With
    /// fewer than two cities there are no edges; the zero denominator is
    /// the degenerate highest-fitness sentinel.
    pub fn calculate_fitness(order: &Vec<usize>, city_list: &Vec<City>) -> (f: Fitness)
        requires
            order@.len() == city_list@.len(),
            forall|i: int| 0 <= i < order@.len() ==> order@[i] < city_list@.len(),
            valid_cities(city_list@),
            city_list@.len() <= MAX_CITIES,
        ensures
            f.denom as int == path_cost(order@, city_list@),
    {
        let n = order.len();
        if n < 2 {
            return Fitness { denom: 0 };
        }
        let mut cost: u64 = 0;
        let mut i: usize = 1;
        while i < n
            invariant
                2 <= n,
                n == order@.len() == city_list@.len(),
                n <= MAX_CITIES,
                forall|t: int| 0 <= t < order@.len() ==> order@[t] < city_list@.len(),
                valid_cities(city_list@),
                1 <= i <= n,
                cost as int == path_cost(order@.take(i as int), city_list@),
                cost as int <= (i - 1) * (EDGE_MAX as int),
            decreases n - i,
        {
            let e = edge_cost_exec(&city_list[order[i - 1]], &city_list[order[i]]);
            proof {
                let pre = order@.take(i as int);
                let cur = order@.take(i as int + 1);
                assert(cur.drop_last() =~= pre);
                assert(cur[i - 1] == order@[i - 1] && cur[i as int] == order@[i as int]);
                assert((i - 1) * (EDGE_MAX as int) + EDGE_MAX as int == i * (EDGE_MAX as int))
                    by (nonlinear_arith);
                assert(i * (EDGE_MAX as int) <= MAX_CITIES * (EDGE_MAX as int))
                    by (nonlinear_arith)
                    requires 0 <= i as int <= MAX_CITIES as int;
            }
            cost = cost + e;
            i += 1;
        }
        proof {
            assert(order@.take(n as int) =~= order@);
        }
        Fitness { denom: cost }
    }

    /// A uniformly shuffled tour over the whole city list, with its
    /// fitness computed immediately.
    pub fn new_random(city_list: &Vec<City>, rng: &mut StdRng) -> (p: Path)
        requires
            1 <= city_list@.len() <= MAX_CITIES,
            valid_cities(city_list@),
        ensures
            p@.wf(city_list@),
    {
        let n = city_list.len();
        let mut order: Vec<usize> = Vec::new();
        let mut i: usize = 0;
        while i < n
            invariant
                i <= n,
                order@.len() == i,
                forall|j: int| 0 <= j < i ==> order@[j] == j,
            decreases n - i,
        {
            order.push(i);
            i += 1;
        }
        proof {
            assert(is_permutation(order@, n as nat));
        }
        let ghost before = order@;
        shuffle_usizes(rng, &mut order);
        proof {
            lemma_multiset_preserves_permutation(before, order@, n as nat);
        }
        let fitness = Path::calculate_fitness(&order, city_list);
        Path { fitness, order }
    }

    /// Swaps two (not necessarily distinct) random positions of the
    /// order, then recomputes the fitness so it cannot go stale.
    pub fn mutate(&mut self, city_list: &Vec<City>, rng: &mut StdRng)
        requires
            old(self)@.wf(city_list@),
            1 <= city_list@.len() <= MAX_CITIES,
            valid_cities(city_list@),
        ensures
            final(self)@.wf(city_list@),
            exists|i: int, j: int|
                0 <= i < city_list@.len() && 0 <= j < city_list@.len() && final(self)@.order
                    == old(self)@.order.update(i, old(self)@.order[j]).update(
                    j,
                    old(self)@.order[i],
                ),
    {
        let n = self.order.len();
        let p1 = rand_below(rng, n);
        let p2 = rand_below(rng, n);
        let a = self.order[p1];
        let b = self.order[p2];
        self.order[p1] = b;
        self.order[p2] = a;
        proof {
            lemma_swap_is_permutation(old(self)@.order, n as nat, p1 as int, p2 as int);
        }
        self.fitness = Path::calculate_fitness(&self.order, city_list);
    }

    /// Single-point crossover: a random cut `k`; the child takes the
    /// mother's first `k` genes verbatim, then the father's genes in the
    /// father's order, skipping any gene already placed.
    pub fn single_point_crossover(
        mother: &Vec<usize>,
        father: &Vec<usize>,
        rng: &mut StdRng,
    ) -> (child: Vec<usize>)
        requires
            is_permutation(mother@, mother@.len()),
            is_permutation(father@, father@.len()),
            mother@.len() == father@.len(),
            mother@.len() >= 1,
        ensures
            is_permutation(child@, mother@.len()),
            exists|k: int|
                0 <= k < mother@.len() && child@ == single_point_child(mother@, father@, k),
    {
        let n = mother.len();
        let k = rand_below(rng, n);
        let mut used: Vec<bool> = vec![false; n];
        let mut child: Vec<usize> = Vec::new();
        let mut i: usize = 0;
        while i < k
            invariant
                i <= k < n,
                n == mother@.len() == father@.len(),
                is_permutation(mother@, n as nat),
                used@.len() == n,
                child@ == mother@.take(i as int),
                forall|v: int| 0 <= v < n ==> (used@[v] <==> child@.contains(v as usize)),
            decreases k - i,
        {
            let g = mother[i];
            child.push(g);
            used[g] = true;
            proof {
                assert(child@ =~= mother@.take(i as int + 1));
                assert forall|v: int| 0 <= v < n implies (used@[v] <==> child@.contains(
                    v as usize,
                )) by {
                    assert(child@ == mother@.take(i as int).push(g));
                }
            }
            i += 1;
        }
        proof {
            let pre = mother@.take(k as int);
            assert forall|a: int, b: int| 0 <= a < b < pre.len() implies pre[a] != pre[b] by {
                assert(mother@[a] != mother@[b]);
            }
            assert(pre.no_duplicates());
            assert(father_remainder(father@.take(0), pre) =~= Seq::<usize>::empty()) by {
                reveal(Seq::filter);
            }
            assert(child@ =~= pre + father_remainder(father@.take(0), pre));
        }
        let mut j: usize = 0;
        while j < n
            invariant
                j <= n,
                k < n,
                n == mother@.len() == father@.len(),
                is_permutation(mother@, n as nat),
                is_permutation(father@, n as nat),
                used@.len() == n,
                child@.no_duplicates(),
                forall|t: int| 0 <= t < child@.len() ==> child@[t] < n,
                forall|v: int| 0 <= v < n ==> (used@[v] <==> child@.contains(v as usize)),
                forall|v: usize|
                    v < n && (mother@.take(k as int).contains(v) || father@.take(
                        j as int,
                    ).contains(v)) ==> child@.contains(v),
                child@ == mother@.take(k as int) + father_remainder(
                    father@.take(j as int),
                    mother@.take(k as int),
                ),
            decreases n - j,
        {
            let g = father[j];
            proof {
                assert(father@.take(j as int + 1).drop_last() =~= father@.take(j as int));
                assert(father@.take(j as int + 1).last() == g);
            }
            if !used[g] {
                proof {
                    assert(forall|t: int| 0 <= t < child@.len() ==> child@[t] != g);
                    // the gene is fresh, so it is not among the mother's
                    // head genes, which are a prefix of the child
                    let head = mother@.take(k as int);
                    if head.contains(g) {
                        let t = choose|t: int| 0 <= t < head.len() && head[t] == g;
                        assert(child@[t] == g);
                        assert(child@.contains(g));
                    }
                }
                child.push(g);
                used[g] = true;
                proof {
                    let head = mother@.take(k as int);
                    lemma_father_remainder_step(father@.take(j as int + 1), head);
                    assert(child@ =~= head + father_remainder(father@.take(j as int + 1), head));
                }
            } else {
                proof {
                    // the gene is already in the child; it cannot sit in
                    // the scanned remainder (the father's genes are
                    // distinct), so the mother's head holds it and the
                    // remainder does not grow
                    let head = mother@.take(k as int);
                    let rem = father_remainder(father@.take(j as int), head);
                    assert(child@.contains(g));
                    let t = choose|t: int| 0 <= t < child@.len() && child@[t] == g;
                    if t >= head.len() {
                        assert(rem[t - head.len()] == g);
                        assert(rem.contains(g));
                        lemma_father_remainder_elem(father@.take(j as int), head, g);
                        let t2 = choose|t2: int|
                            0 <= t2 < father@.take(j as int).len() && father@.take(j as int)[t2]
                                == g;
                        assert(father@[t2] == father@[j as int]);
                        assert(false);
                    }
                    assert(head[t] == g && head.contains(g));
                    lemma_father_remainder_step(father@.take(j as int + 1), head);
                    assert(child@ =~= head + father_remainder(father@.take(j as int + 1), head));
                }
            }
            proof {
                assert(father@.take(j as int + 1) =~= father@.take(j as int).push(father@[j as int]));
            }
            j += 1;
        }
        proof {
            assert(father@.take(n as int) =~= father@);
            assert forall|v: usize| v < n implies child@.contains(v) by {
                lemma_permutation_contains(father@, n as nat, v);
            }
            lemma_distinct_bounded_len(child@, n as nat);
            lemma_covering_len(child@, n as nat);
            assert(child@ == single_point_child(mother@, father@, k as int));
        }
        child
    }

    /// Uniform / partial order crossover: copy the mother's genes at a
    /// random half of the positions, then fill the remaining positions in
    /// ascending order with the father's genes, scanning the father from
    /// where the last scan left off and skipping genes already placed.
    pub fn uniform_order_crossover(
        mother: &Vec<usize>,
        father: &Vec<usize>,
        rng: &mut StdRng,
    ) -> (child: Vec<usize>)
        requires
            is_permutation(mother@, mother@.len()),
            is_permutation(father@, father@.len()),
            mother@.len() == father@.len(),
            mother@.len() >= 1,
        ensures
            is_permutation(child@, mother@.len()),
            exists|sel: Seq<usize>| copies_mother_at(child@, mother@, sel),
    {
        let n = mother.len();
        let mut positions: Vec<usize> = Vec::new();
        let mut b: usize = 0;
        while b < n
            invariant
                b <= n,
                positions@.len() == b,
                forall|j: int| 0 <= j < b ==> positions@[j] == j,
            decreases n - b,
        {
            positions.push(b);
            b += 1;
        }
        proof {
            assert(is_permutation(positions@, n as nat));
        }
        let ghost unshuffled = positions@;
        shuffle_usizes(rng, &mut positions);
        proof {
            lemma_multiset_preserves_permutation(unshuffled, positions@, n as nat);
        }
        let half = n / 2;
        let mut child: Vec<usize> = vec![0; n];
        let mut filled: Vec<bool> = vec![false; n];
        let mut used: Vec<bool> = vec![false; n];
        let ghost mut locs: Seq<usize> = Seq::empty();
        let ghost mut placed: Seq<usize> = Seq::empty();
        let mut t: usize = 0;
        while t < half
            invariant
                t <= half <= n,
                n == mother@.len() == father@.len(),
                is_permutation(mother@, n as nat),
                is_permutation(positions@, n as nat),
                child@.len() == n,
                filled@.len() == n,
                used@.len() == n,
                locs == positions@.take(t as int),
                placed.len() == t,
                forall|q: int| 0 <= q < t ==> placed[q] == mother@[locs[q] as int],
                placed.no_duplicates(),
                forall|q: int| 0 <= q < placed.len() ==> placed[q] < n,
                forall|i: int| 0 <= i < n ==> (filled@[i] <==> locs.contains(i as usize)),
                forall|v: int| 0 <= v < n ==> (used@[v] <==> placed.contains(v as usize)),
                forall|q: int| 0 <= q < locs.len() ==> child@[locs[q] as int] == placed[q],
            decreases half - t,
        {
            let p = positions[t];
            let g = mother[p];
            proof {
                if locs.contains(p) {
                    let q = choose|q: int| 0 <= q < locs.len() && locs[q] == p;
                    assert(positions@[q] == positions@[t as int]);
                    assert(false);
                }
                if placed.contains(g) {
                    let q = choose|q: int| 0 <= q < placed.len() && placed[q] == g;
                    assert(mother@[locs[q] as int] == mother@[p as int]);
                    assert(locs[q] != p);
                    assert(false);
                }
            }
            child[p] = g;
            filled[p] = true;
            used[g] = true;
            proof {
                let old_locs = locs;
                locs = locs.push(p);
                placed = placed.push(g);
                assert(locs =~= positions@.take(t as int + 1));
                assert(forall|q: int| 0 <= q < old_locs.len() ==> old_locs[q] == locs[q]);
            }
            t += 1;
        }
        let ghost sel = locs;
        proof {
            assert(sel.len() == n / 2);
            assert forall|a: int, b: int| 0 <= a < b < sel.len() implies sel[a] != sel[b] by {
                assert(positions@[a] != positions@[b]);
            }
            assert(sel.no_duplicates());
            assert forall|q: int| 0 <= q < sel.len() implies (#[trigger] sel[q]) < n
                && child@[sel[q] as int] == mother@[sel[q] as int] by {
                assert(child@[locs[q] as int] == placed[q]);
                assert(placed[q] == mother@[locs[q] as int]);
            }
        }
        let mut fi: usize = 0;
        let mut p: usize = 0;
        while p < n
            invariant
                p <= n,
                fi <= n,
                n == mother@.len() == father@.len(),
                sel.len() == n / 2,
                sel.no_duplicates(),
                sel.len() <= locs.len(),
                forall|q: int| 0 <= q < sel.len() ==> locs[q] == sel[q],
                forall|q: int|
                    0 <= q < sel.len() ==> (#[trigger] sel[q]) < n && child@[sel[q] as int]
                        == mother@[sel[q] as int],
                is_permutation(father@, n as nat),
                child@.len() == n,
                filled@.len() == n,
                used@.len() == n,
                placed.len() == locs.len(),
                locs.no_duplicates(),
                forall|q: int| 0 <= q < locs.len() ==> locs[q] < n,
                placed.no_duplicates(),
                forall|q: int| 0 <= q < placed.len() ==> placed[q] < n,
                forall|i: int| 0 <= i < n ==> (filled@[i] <==> locs.contains(i as usize)),
                forall|v: int| 0 <= v < n ==> (used@[v] <==> placed.contains(v as usize)),
                forall|q: int| 0 <= q < locs.len() ==> child@[locs[q] as int] == placed[q],
                forall|j: int| 0 <= j < fi ==> used@[father@[j] as int],
                forall|q: int| 0 <= q < p ==> filled@[q],
            decreases n - p,
        {
            if !filled[p] {
                proof {
                    lemma_distinct_missing_len(locs, n as nat, p);
                    lemma_unused_father_gene(placed, used@, father@, n as nat, fi as int);
                }
                while used[father[fi]]
                    invariant
                        n == father@.len(),
                        used@.len() == n,
                        is_permutation(father@, n as nat),
                        fi < n,
                        forall|j: int| 0 <= j < fi ==> used@[father@[j] as int],
                        exists|j0: int| fi <= j0 < n && !used@[father@[j0] as int],
                    decreases n - fi,
                {
                    proof {
                        let j0 = choose|j0: int| fi <= j0 < n && !used@[father@[j0] as int];
                        assert(j0 != fi as int);
                        assert(fi as int + 1 <= j0 < n && !used@[father@[j0] as int]);
                    }
                    fi += 1;
                }
                let g = father[fi];
                child[p] = g;
                filled[p] = true;
                used[g] = true;
                proof {
                    let old_locs = locs;
                    locs = locs.push(p);
                    placed = placed.push(g);
                    assert(forall|q: int| 0 <= q < old_locs.len() ==> old_locs[q] == locs[q]);
                    // the write happened at an unselected position, so the
                    // mother's copied genes stand untouched
                    assert forall|q: int| 0 <= q < sel.len() implies child@[sel[q] as int]
                        == mother@[sel[q] as int] by {
                        assert(old_locs[q] == sel[q]);
                        assert(old_locs.contains(sel[q]));
                        assert(sel[q] != p);
                    }
                }
            }
            p += 1;
        }
        proof {
            lemma_child_complete(child@, filled@, locs, placed, n as nat);
            assert(copies_mother_at(child@, mother@, sel));
        }
        child
    }

    /// Partially-mapped crossover (PMX): copy the mother's genes over a
    /// random window and record the window's mother-gene to father-gene
    /// mapping; outside the window take the father's gene, pushing it
    /// through the mapping while it collides with a gene already in the
    /// child. The walk is bounded: should the mapping ever cycle instead
    /// of reaching a fresh gene, the first gene not yet in the child is
    /// taken, which keeps the child a permutation.
    pub fn partially_mapped_crossover(
        mother: &Vec<usize>,
        father: &Vec<usize>,
        rng: &mut StdRng,
    ) -> (child: Vec<usize>)
        requires
            is_permutation(mother@, mother@.len()),
            is_permutation(father@, father@.len()),
            mother@.len() == father@.len(),
            mother@.len() >= 1,
        ensures
            is_permutation(child@, mother@.len()),
            exists|start: int, end: int| pmx_shaped(child@, mother@, father@, start, end),
    {
        let n = mother.len();
        let c1 = rand_below(rng, n);
        let c2 = rand_below(rng, n);
        let (start, end) = if c1 < c2 {
            (c1, c2)
        } else {
            (c2, c1)
        };
        let mut child: Vec<usize> = vec![0; n];
        let mut filled: Vec<bool> = vec![false; n];
        let mut used: Vec<bool> = vec![false; n];
        let mut map_to: Vec<usize> = vec![0; n];
        let mut dom: Vec<bool> = vec![false; n];
        let ghost mut locs: Seq<usize> = Seq::empty();
        let ghost mut placed: Seq<usize> = Seq::empty();
        let mut i: usize = start;
        while i < end
            invariant
                start <= i <= end < n,
                n == mother@.len() == father@.len(),
                is_permutation(mother@, n as nat),
                is_permutation(father@, n as nat),
                child@.len() == n,
                filled@.len() == n,
                used@.len() == n,
                map_to@.len() == n,
                dom@.len() == n,
                locs.len() == i - start,
                forall|q: int| 0 <= q < locs.len() ==> locs[q] == start + q,
                placed.len() == locs.len(),
                forall|q: int| 0 <= q < placed.len() ==> placed[q] == mother@[locs[q] as int],
                placed.no_duplicates(),
                forall|q: int| 0 <= q < placed.len() ==> placed[q] < n,
                forall|j: int| 0 <= j < n ==> (filled@[j] <==> locs.contains(j as usize)),
                forall|v: int| 0 <= v < n ==> (used@[v] <==> placed.contains(v as usize)),
                forall|q: int| 0 <= q < locs.len() ==> child@[locs[q] as int] == placed[q],
                forall|t: int| start <= t < i ==> child@[t] == mother@[t] && filled@[t],
                forall|v: int| 0 <= v < n ==> (dom@[v] ==> map_to@[v] < n),
            decreases end - i,
        {
            let g = mother[i];
            proof {
                if locs.contains(i) {
                    let q = choose|q: int| 0 <= q < locs.len() && locs[q] == i;
                    assert(false);
                }
                if placed.contains(g) {
                    let q = choose|q: int| 0 <= q < placed.len() && placed[q] == g;
                    assert(mother@[locs[q] as int] == mother@[i as int]);
                    assert(locs[q] != i);
                    assert(false);
                }
            }
            child[i] = g;
            filled[i] = true;
            used[g] = true;
            map_to[g] = father[i];
            dom[g] = true;
            proof {
                let old_locs = locs;
                locs = locs.push(i);
                placed = placed.push(g);
                assert(forall|q: int| 0 <= q < old_locs.len() ==> old_locs[q] == locs[q]);
            }
            i += 1;
        }
        let mut p: usize = 0;
        while p < n
            invariant
                p <= n,
                n == mother@.len() == father@.len(),
                is_permutation(father@, n as nat),
                child@.len() == n,
                filled@.len() == n,
                used@.len() == n,
                map_to@.len() == n,
                dom@.len() == n,
                placed.len() == locs.len(),
                locs.no_duplicates(),
                forall|q: int| 0 <= q < locs.len() ==> locs[q] < n,
                placed.no_duplicates(),
                forall|q: int| 0 <= q < placed.len() ==> placed[q] < n,
                forall|j: int| 0 <= j < n ==> (filled@[j] <==> locs.contains(j as usize)),
                forall|v: int| 0 <= v < n ==> (used@[v] <==> placed.contains(v as usize)),
                forall|q: int| 0 <= q < locs.len() ==> child@[locs[q] as int] == placed[q],
                start <= end < n,
                forall|t: int| start <= t < end ==> child@[t] == mother@[t] && filled@[t],
                forall|v: int| 0 <= v < n ==> (dom@[v] ==> map_to@[v] < n),
                forall|q: int| 0 <= q < p ==> filled@[q],
                end - start <= locs.len(),
                forall|q: int|
                    0 <= q < end - start ==> locs[q] == start + q && placed[q] == mother@[locs[q] as int],
                forall|q: int|
                    end - start <= q < locs.len() ==> !(start <= locs[q] < end) && locs[q] < p,
                forall|t: int|
                    0 <= t < p && !(start <= t < end) ==> pmx_outside(
                        child@,
                        mother@,
                        father@,
                        start as int,
                        end as int,
                        t,
                    ),
            decreases n - p,
        {
            if !filled[p] {
                let mut g = father[p];
                let mut steps: usize = 0;
                while steps < n && used[g] && dom[g]
                    invariant
                        g < n,
                        steps <= n,
                        p < n,
                        n == father@.len(),
                        used@.len() == n,
                        dom@.len() == n,
                        map_to@.len() == n,
                        forall|v: int| 0 <= v < n ==> (dom@[v] ==> map_to@[v] < n),
                        g == father@[p as int] || used@[father@[p as int] as int],
                    decreases n - steps,
                {
                    g = map_to[g];
                    steps += 1;
                }
                if used[g] {
                    proof {
                        lemma_distinct_missing_len(locs, n as nat, p);
                        lemma_unused_father_gene(placed, used@, father@, n as nat, 0);
                        let j0 = choose|j0: int| 0 <= j0 < n && !used@[father@[j0] as int];
                        assert(father@[j0] < n && !used@[father@[j0] as int]);
                        assert(exists|v: int| 0 <= v < n && !used@[v]);
                        assert(used@[father@[p as int] as int]);
                    }
                    g = 0;
                    while used[g]
                        invariant
                            used@.len() == n,
                            dom@.len() == n,
                            map_to@.len() == n,
                            p < n,
                            n == father@.len(),
                            forall|v: int| 0 <= v < n ==> (dom@[v] ==> map_to@[v] < n),
                            g < n,
                            exists|v: int| g <= v < n && !used@[v],
                            used@[father@[p as int] as int],
                        decreases n - g,
                    {
                        proof {
                            let v = choose|v: int| g <= v < n && !used@[v];
                            assert(v != g as int);
                            assert(g as int + 1 <= v < n && !used@[v]);
                        }
                        g += 1;
                    }
                }
                proof {
                    // where the father's gene was passed over, it already
                    // sits in the child: in the window copy or at an
                    // earlier outside position
                    if g != father@[p as int] {
                        assert(used@[father@[p as int] as int]);
                        assert(placed.contains(father@[p as int] as usize));
                        let q0 = choose|q0: int|
                            0 <= q0 < placed.len() && placed[q0] == father@[p as int] as usize;
                        if q0 < end - start {
                            assert(mother@.subrange(start as int, end as int)[q0] == mother@[start
                                + q0]);
                            assert(mother@.subrange(start as int, end as int).contains(
                                father@[p as int] as usize,
                            ));
                        } else {
                            assert(child@[locs[q0] as int] == placed[q0]);
                            assert(!(start <= locs[q0] < end) && locs[q0] < p);
                        }
                    }
                }
                let ghost child0 = child@;
                child[p] = g;
                filled[p] = true;
                used[g] = true;
                proof {
                    let old_locs = locs;
                    let old_placed = placed;
                    locs = locs.push(p);
                    placed = placed.push(g);
                    assert(forall|q: int| 0 <= q < old_locs.len() ==> old_locs[q] == locs[q]);
                    // the write happened outside the window, which stays
                    // the mother's verbatim copy
                    assert forall|t: int| start <= t < end implies child@[t] == mother@[t]
                        && filled@[t] by {
                        assert(t != p);
                    }
                    assert forall|t: int| 0 <= t < p + 1 && !(start <= t < end) implies pmx_outside(
                        child@,
                        mother@,
                        father@,
                        start as int,
                        end as int,
                        t,
                    ) by {
                        if t < p {
                            assert(pmx_outside(child0, mother@, father@, start as int, end as int, t));
                            assert(child@[t] == child0[t]);
                            if child0[t] != father@[t] && !mother@.subrange(
                                start as int,
                                end as int,
                            ).contains(father@[t]) {
                                let q = choose|q: int|
                                    0 <= q < t && !(start <= q < end) && child0[q] == father@[t];
                                assert(child@[q] == father@[t]);
                            }
                        } else {
                            if child@[p as int] != father@[p as int] {
                                if !mother@.subrange(start as int, end as int).contains(
                                    father@[p as int] as usize,
                                ) {
                                    let q0 = choose|q0: int|
                                        0 <= q0 < old_placed.len() && old_placed[q0] == father@[p as int] as usize;
                                    assert(child0[locs[q0] as int] == father@[p as int]
                                        && !(start <= locs[q0] < end) && locs[q0] < p);
                                    assert(child@[locs[q0] as int] == father@[p as int]);
                                }
                            }
                        }
                    }
                }
            } else {
                proof {
                    // a filled position this early is part of the window
                    assert(locs.contains(p as usize));
                    let q = choose|q: int| 0 <= q < locs.len() && locs[q] == p as usize;
                    if q >= end - start {
                        assert(locs[q] < p);
                        assert(false);
                    }
                    assert(start <= p < end);
                }
            }
            p += 1;
        }
        proof {
            lemma_child_complete(child@, filled@, locs, placed, n as nat);
            assert(copies_mother_window(child@, mother@, start as int, end as int));
            assert(pmx_shaped(child@, mother@, father@, start as int, end as int));
        }
        child
    }

    /// The position-indexed form of this tour, as the trace records it:
    /// entry `c` is the position at which city `c` appears in the order
    /// (the inverse permutation).
    pub fn positions(&self) -> (r: Vec<usize>)
        requires
            is_permutation(self@.order, self@.order.len()),
        ensures
            r@ == crate::perm::inverse_perm(self@.order),
            is_permutation(r@, self@.order.len()),
    {
        crate::perm::invert_permutation(&self.order)
    }

    /// One child from two parents: one of the three crossover strategies,
    /// chosen uniformly at random, with the child's fitness computed
    /// immediately. Neither parent is mutated; the child bears one of the
    /// three operators' shapes, with `self` as the mother.
    pub fn breed(&self, other: &Path, city_list: &Vec<City>, rng: &mut StdRng) -> (child: Path)
        requires
            self@.wf(city_list@),
            other@.wf(city_list@),
            1 <= city_list@.len() <= MAX_CITIES,
            valid_cities(city_list@),
        ensures
            child@.wf(city_list@),
            (exists|k: int|
                0 <= k < self@.order.len() && child@.order == single_point_child(
                    self@.order,
                    other@.order,
                    k,
                )) || (exists|sel: Seq<usize>| copies_mother_at(child@.order, self@.order, sel))
                || (exists|s: int, e: int|
                pmx_shaped(child@.order, self@.order, other@.order, s, e)),
    {
        let t = rand_below(rng, 3);
        let order = if t == 0 {
            Path::single_point_crossover(&self.order, &other.order, rng)
        } else if t == 1 {
            Path::uniform_order_crossover(&self.order, &other.order, rng)
        } else {
            Path::partially_mapped_crossover(&self.order, &other.order, rng)
        };
        let fitness = Path::calculate_fitness(&order, city_list);
        let child = Path { fitness, order };
        proof {
            assert(self@.order == self.order@ && other@.order == other.order@);
            assert(child@.order == child.order@);
        }
        child
    }
}

/// A rate in `[0, 1]`: the exact fraction `num / den`.
#[derive(Clone, Copy, PartialEq, Eq, Structural, Debug)]
pub struct Rate {
    pub num: u32,
    pub den: u32,
}

impl Rate {
    pub open spec fn valid(self) -> bool {
        1 <= self.den && self.num <= self.den
    }

    /// `n` scaled by the rate, rounded down.
    pub open spec fn scale_spec(self, n: int) -> int {
        n * (self.num as int) / (self.den as int)
    }

    pub fn scale(&self, n: usize) -> (r: usize)
        requires
            self.valid(),
        ensures
            r == self.scale_spec(n as int),
            r <= n,
    {
        proof {
            let nn = n as int;
            let nu = self.num as int;
            let nd = self.den as int;
            assert(nn * nu <= nn * nd) by (nonlinear_arith)
                requires
                    0 <= nn,
                    0 <= nu,
                    nu <= nd,
            ;
            assert(nn * nu < 0x1_0000_0000_0000_0000_0000_0000_0000_0000int) by (nonlinear_arith)
                requires
                    0 <= nn,
                    nn < 0x1_0000_0000_0000_0000int,
                    0 <= nu,
                    nu < 0x1_0000_0000int,
            ;
            vstd::arithmetic::div_mod::lemma_div_is_ordered(nn * nu, nn * nd, nd);
            vstd::arithmetic::div_mod::lemma_div_multiples_vanish(nn, nd);
            assert(nn * nd == nd * nn) by (nonlinear_arith);
        }
        let wide = (n as u128) * (self.num as u128) / (self.den as u128);
        wide as usize
    }
}

/// The values of a population, in order.
pub open spec fn pop_view(s: Seq<Path>) -> Seq<PathV> {
    s.map_values(|p: Path| p@)
}

/// The evolution loop's state: the immutable run parameters, the current
/// population, the per-generation champions recorded so far, and the
/// seeded random source.
pub struct Simulation {
    city_list: Vec<City>,
    population: Vec<Path>,
    paths: Vec<Path>,
    iterations: usize,
    crossover_rate: Rate,
    mutation_rate: Rate,
    survival_rate: Rate,
    rng: StdRng,
}

impl Simulation {
    pub closed spec fn cities(self) -> Seq<City> {
        self.city_list@
    }

    pub closed spec fn pop(self) -> Seq<PathV> {
        pop_view(self.population@)
    }

    /// The recorded per-generation champions, oldest first.
    pub closed spec fn champs(self) -> Seq<PathV> {
        pop_view(self.paths@)
    }

    pub closed spec fn spec_iterations(self) -> int {
        self.iterations as int
    }

    pub closed spec fn rates(self) -> (Rate, Rate, Rate) {
        (self.crossover_rate, self.mutation_rate, self.survival_rate)
    }

    pub open spec fn wf(self) -> bool {
        &&& 2 <= self.cities().len() <= MAX_CITIES
        &&& valid_cities(self.cities())
        &&& 4 <= self.pop().len()
        &&& forall|i: int| 0 <= i < self.pop().len() ==> (#[trigger] self.pop()[i]).wf(
            self.cities(),
        )
        &&& forall|i: int|
            0 <= i < self.champs().len() ==> (#[trigger] self.champs()[i]).wf(self.cities())
        &&& self.rates().0.valid()
        &&& self.rates().1.valid()
        &&& self.rates().2.valid()
    }

    /// A simulation over `city_list` with a fresh random population of
    /// `population_size` tours. The run parameters never change
    /// afterwards; `seed` makes the run reproducible.
    pub fn new(
        city_list: Vec<City>,
        population_size: usize,
        iterations: usize,
        crossover_rate: Rate,
        mutation_rate: Rate,
        survival_rate: Rate,
        seed: u64,
    ) -> (sim: Simulation)
        requires
            2 <= city_list@.len() <= MAX_CITIES,
            valid_cities(city_list@),
            population_size >= 4,
            crossover_rate.valid(),
            mutation_rate.valid(),
            survival_rate.valid(),
        ensures
            sim.wf(),
            sim.cities() == city_list@,
            sim.pop().len() == population_size,
            sim.champs().len() == 0,
            sim.spec_iterations() == iterations,
            sim.rates() == (crossover_rate, mutation_rate, survival_rate),
    {
        let mut rng = rng_from_seed(seed);
        let population = Self::initial_population(&city_list, population_size, &mut rng);
        let paths: Vec<Path> = Vec::new();
        Simulation {
            city_list,
            population,
            paths,
            iterations,
            crossover_rate,
            mutation_rate,
            survival_rate,
            rng,
        }
    }

    fn initial_population(city_list: &Vec<City>, population_size: usize, rng: &mut StdRng) -> (pop:
        Vec<Path>)
        requires
            2 <= city_list@.len() <= MAX_CITIES,
            valid_cities(city_list@),
        ensures
            pop@.len() == population_size,
            forall|i: int| 0 <= i < pop@.len() ==> (#[trigger] pop_view(pop@)[i]).wf(city_list@),
    {
        let mut pop: Vec<Path> = Vec::new();
        let mut i: usize = 0;
        while i < population_size
            invariant
                i <= population_size,
                pop@.len() == i,
                2 <= city_list@.len() <= MAX_CITIES,
                valid_cities(city_list@),
                forall|q: int| 0 <= q < i ==> (#[trigger] pop_view(pop@)[q]).wf(city_list@),
            decreases population_size - i,
        {
            let p = Path::new_random(city_list, rng);
            let ghost prev = pop@;
            pop.push(p);
            proof {
                assert forall|q: int| 0 <= q < i + 1 implies (#[trigger] pop_view(pop@)[q]).wf(
                    city_list@,
                ) by {
                    if q < i {
                        assert(pop_view(pop@)[q] == pop_view(prev)[q]);
                    } else {
                        assert(pop_view(pop@)[q] == p@);
                    }
                }
            }
            i += 1;
        }
        pop
    }

    pub fn population(&self) -> (pop: &Vec<Path>)
        ensures
            pop_view(pop@) == self.pop(),
    {
        &self.population
    }

    pub fn champions(&self) -> (champs: &Vec<Path>)
        ensures
            pop_view(champs@) == self.champs(),
    {
        &self.paths
    }

    pub fn city_list(&self) -> (cities: &Vec<City>)
        ensures
            cities@ == self.cities(),
    {
        &self.city_list
    }

    pub fn iterations(&self) -> (it: usize)
        ensures
            it == self.spec_iterations(),
    {
        self.iterations
    }

    /// The fittest tour of the current population: an equal copy of the
    /// first tour of highest fitness (lowest denominator).
    pub fn find_fittest(&self) -> (best: Path)
        requires
            self.pop().len() >= 1,
        ensures
            exists|i: int|
                0 <= i < self.pop().len() && best@ == self.pop()[i] && (forall|j: int|
                    0 <= j < i ==> (#[trigger] self.pop()[j]).fitness.denom
                        > best@.fitness.denom),
            forall|j: int|
                0 <= j < self.pop().len() ==> (#[trigger] self.pop()[j]).fitness.denom
                    >= best@.fitness.denom,
    {
        let mut bi: usize = 0;
        let mut k: usize = 1;
        while k < self.population.len()
            invariant
                1 <= k <= self.population@.len(),
                bi < k,
                forall|j: int|
                    0 <= j < k ==> (#[trigger] self.pop()[j]).fitness.denom
                        >= self.pop()[bi as int].fitness.denom,
                forall|j: int|
                    0 <= j < bi ==> (#[trigger] self.pop()[j]).fitness.denom
                        > self.pop()[bi as int].fitness.denom,
            decreases self.population@.len() - k,
        {
            if self.population[k].fitness.higher_than(&self.population[bi].fitness) {
                bi = k;
            }
            k += 1;
        }
        let best = self.population[bi].duplicate();
        proof {
            assert(best@ == self.pop()[bi as int]);
            assert(0 <= bi < self.pop().len() && best@ == self.pop()[bi as int] && (forall|j: int|
                0 <= j < bi ==> (#[trigger] self.pop()[j]).fitness.denom > best@.fitness.denom));
        }
        best
    }

    /// The population ranked best-first (ascending fitness denominators),
    /// holding exactly the same multiset of tours.
    fn rank_by_fitness(v: &Vec<Path>) -> (r: Vec<Path>)
        ensures
            r@.len() == v@.len(),
            pop_view(r@).to_multiset() == pop_view(v@).to_multiset(),
            forall|a: int, b: int|
                0 <= a <= b < r@.len() ==> (#[trigger] pop_view(r@)[a]).fitness.denom <= (
                #[trigger] pop_view(r@)[b]).fitness.denom,
    {
        let mut r: Vec<Path> = Vec::new();
        let mut i: usize = 0;
        while i < v.len()
            invariant
                i <= v@.len(),
                r@.len() == i,
                pop_view(r@).to_multiset() == pop_view(v@.take(i as int)).to_multiset(),
                forall|a: int, b: int|
                    0 <= a <= b < r@.len() ==> (#[trigger] pop_view(r@)[a]).fitness.denom <= (
                    #[trigger] pop_view(r@)[b]).fitness.denom,
            decreases v@.len() - i,
        {
            let p = &v[i];
            let mut k: usize = 0;
            while k < r.len() && r[k].fitness.denom <= p.fitness.denom
                invariant
                    k <= r@.len(),
                    forall|a: int|
                        0 <= a < k ==> (#[trigger] pop_view(r@)[a]).fitness.denom
                            <= p@.fitness.denom,
                decreases r@.len() - k,
            {
                k += 1;
            }
            let d = p.duplicate();
            let ghost prev = r@;
            r.insert(k, d);
            proof {
                lemma_pop_view_insert(prev, k as int, d);
                lemma_insert_to_multiset(pop_view(prev), k as int, d@);
                assert(v@.take(i as int + 1).drop_last() =~= v@.take(i as int));
                assert(v@.take(i as int + 1) =~= v@.take(i as int).push(v@[i as int]));
                lemma_pop_view_push(v@.take(i as int), v[i as int]);
                assert(pop_view(v@.take(i as int + 1)) =~= pop_view(v@.take(i as int)).push(
                    v@[i as int]@,
                ));
                let rv = pop_view(r@);
                let pv = pop_view(prev);
                assert forall|a: int, b: int| 0 <= a <= b < rv.len() implies (
                #[trigger] rv[a]).fitness.denom <= (#[trigger] rv[b]).fitness.denom by {
                    if a < k && b < k {
                        assert(rv[a] == pv[a] && rv[b] == pv[b]);
                    } else if a < k && b == k {
                        assert(rv[a] == pv[a] && rv[b] == d@);
                    } else if a < k && b > k {
                        assert(rv[a] == pv[a] && rv[b] == pv[b - 1]);
                    } else if a == k && b == k {
                    } else if a == k && b > k {
                        assert(rv[b] == pv[b - 1]);
                        assert(k < pv.len());
                        assert(pv[k as int].fitness.denom > p@.fitness.denom);
                        assert(pv[k as int].fitness.denom <= pv[b - 1].fitness.denom);
                    } else {
                        assert(rv[a] == pv[a - 1] && rv[b] == pv[b - 1]);
                    }
                }
            }
            i += 1;
        }
        proof {
            assert(v@.take(v@.len() as int) =~= v@);
        }
        r
    }

    /// One generation: rank the population, keep the top slice of the
    /// breeding pool unchanged (elitism), breed the offspring from the
    /// pool, keep the two weakest tours for diversity, then mutate each
    /// member independently with the mutation rate's probability. The
    /// counts are clamped rather than rejected, so that every rate in
    /// [0, 1] still assembles a full-size generation: the breeding pool
    /// is never empty, and the elites never crowd out the two diversity
    /// slots (`surviving_count`). The next generation is exactly as large
    /// as the current one, composed as `generation_composed` says.
    pub fn generate_children(&mut self)
        requires
            old(self).wf(),
        ensures
            final(self).wf(),
            final(self).pop().len() == old(self).pop().len(),
            final(self).cities() == old(self).cities(),
            final(self).champs() == old(self).champs(),
            final(self).spec_iterations() == old(self).spec_iterations(),
            final(self).rates() == old(self).rates(),
            generation_composed(
                final(self).pop(),
                old(self).pop(),
                old(self).cities(),
                old(self).rates().0,
                old(self).rates().2,
            ),
    {
        let sorted = Self::rank_by_fitness(&self.population);
        let p = sorted.len();
        proof {
            assert forall|q: int| 0 <= q < sorted@.len() implies (#[trigger] pop_view(
                sorted@,
            )[q]).wf(self.city_list@) by {
                let pv = pop_view(sorted@)[q];
                assert(pop_view(sorted@).contains(pv));
                assert(pop_view(sorted@).to_multiset().count(pv) > 0);
                assert(pop_view(self.population@).contains(pv));
                let j = choose|j: int|
                    0 <= j < pop_view(self.population@).len() && pop_view(self.population@)[j]
                        == pv;
                assert(self.pop()[j].wf(self.cities()));
            }
        }
        let mut breeding_count = self.crossover_rate.scale(p);
        if breeding_count < 1 {
            breeding_count = 1;
        }
        let mut surviving = self.survival_rate.scale(breeding_count);
        if surviving > p - 2 {
            surviving = p - 2;
        }
        proof {
            assert(surviving as int == surviving_count(
                p as int,
                self.crossover_rate,
                self.survival_rate,
            ));
        }
        let mut next: Vec<Path> = Vec::new();
        let mut e: usize = 0;
        while e < surviving
            invariant
                e <= surviving,
                surviving <= p - 2,
                p == sorted@.len(),
                next@.len() == e,
                forall|q: int|
                    0 <= q < sorted@.len() ==> (#[trigger] pop_view(sorted@)[q]).wf(
                        self.city_list@,
                    ),
                forall|q: int|
                    0 <= q < next@.len() ==> (#[trigger] pop_view(next@)[q]).wf(self.city_list@),
                forall|q: int| 0 <= q < e ==> pop_view(next@)[q] == pop_view(sorted@)[q],
            decreases surviving - e,
        {
            let d = sorted[e].duplicate();
            let ghost prevn = next@;
            proof {
                assert(d@ == pop_view(sorted@)[e as int]);
            }
            next.push(d);
            proof {
                lemma_pop_view_push(prevn, d);
                lemma_pop_view_push_wf(prevn, d, self.city_list@);
            }
            e += 1;
        }
        let offspring_count = p - surviving - 2;
        let mut o: usize = 0;
        while o < offspring_count
            invariant
                o <= offspring_count,
                offspring_count == p - surviving - 2,
                next@.len() == surviving + o,
                1 <= breeding_count <= p,
                surviving <= p - 2,
                4 <= p == sorted@.len(),
                self.city_list@ == old(self).city_list@,
                self.population@ == old(self).population@,
                self.paths@ == old(self).paths@,
                self.iterations == old(self).iterations,
                self.crossover_rate == old(self).crossover_rate,
                self.mutation_rate == old(self).mutation_rate,
                self.survival_rate == old(self).survival_rate,
                2 <= self.city_list@.len() <= MAX_CITIES,
                valid_cities(self.city_list@),
                forall|q: int|
                    0 <= q < sorted@.len() ==> (#[trigger] pop_view(sorted@)[q]).wf(
                        self.city_list@,
                    ),
                forall|q: int|
                    0 <= q < next@.len() ==> (#[trigger] pop_view(next@)[q]).wf(self.city_list@),
                forall|q: int| 0 <= q < surviving ==> pop_view(next@)[q] == pop_view(sorted@)[q],
            decreases offspring_count - o,
        {
            let pick = rand_below(&mut self.rng, breeding_count);
            let a_idx = o % breeding_count;
            proof {
                assert(pop_view(sorted@)[a_idx as int] == sorted@[a_idx as int]@);
                assert(pop_view(sorted@)[pick as int] == sorted@[pick as int]@);
            }
            let child = sorted[a_idx].breed(&sorted[pick], &self.city_list, &mut self.rng);
            let ghost prevn = next@;
            next.push(child);
            proof {
                lemma_pop_view_push(prevn, child);
                lemma_pop_view_push_wf(prevn, child, self.city_list@);
            }
            o += 1;
        }
        let d1 = sorted[p - 2].duplicate();
        let ghost prev1 = next@;
        proof {
            assert(d1@ == pop_view(sorted@)[p - 2]);
        }
        next.push(d1);
        proof {
            lemma_pop_view_push(prev1, d1);
            lemma_pop_view_push_wf(prev1, d1, self.city_list@);
        }
        let d2 = sorted[p - 1].duplicate();
        let ghost prev2 = next@;
        proof {
            assert(d2@ == pop_view(sorted@)[p - 1]);
        }
        next.push(d2);
        proof {
            lemma_pop_view_push(prev2, d2);
            lemma_pop_view_push_wf(prev2, d2, self.city_list@);
        }
        // The fatal invariant of the generation step: the assembled next
        // generation is exactly as large as the current population.
        assert(next.len() == p);
        let ghost base = pop_view(next@);
        proof {
            assert(forall|q: int|
                0 <= q < surviving ==> #[trigger] base[q] == pop_view(sorted@)[q]);
            assert(base[p - 2] == pop_view(sorted@)[p - 2]);
            assert(base[p - 1] == pop_view(sorted@)[p - 1]);
        }
        let mut m: usize = 0;
        while m < next.len()
            invariant
                m <= p,
                next@.len() == p,
                base.len() == p,
                forall|q: int|
                    0 <= q < p ==> mutated_of(
                        #[trigger] pop_view(next@)[q],
                        base[q],
                        self.city_list@,
                    ),
                forall|q: int| m <= q < p ==> pop_view(next@)[q] == base[q],
                4 <= p,
                self.city_list@ == old(self).city_list@,
                self.population@ == old(self).population@,
                self.paths@ == old(self).paths@,
                self.iterations == old(self).iterations,
                self.crossover_rate == old(self).crossover_rate,
                self.mutation_rate == old(self).mutation_rate,
                self.survival_rate == old(self).survival_rate,
                self.mutation_rate.valid(),
                2 <= self.city_list@.len() <= MAX_CITIES,
                valid_cities(self.city_list@),
                forall|q: int|
                    0 <= q < next@.len() ==> (#[trigger] pop_view(next@)[q]).wf(self.city_list@),
            decreases p - m,
        {
            if rand_ratio(&mut self.rng, self.mutation_rate.num, self.mutation_rate.den) {
                let ghost prevn = next@;
                let mut t = next.remove(m);
                proof {
                    assert(t@ == pop_view(prevn)[m as int]);
                }
                t.mutate(&self.city_list, &mut self.rng);
                let ghost removed = next@;
                next.insert(m, t);
                proof {
                    lemma_pop_view_remove(prevn, m as int);
                    lemma_pop_view_insert(removed, m as int, t);
                    assert forall|q: int| 0 <= q < next@.len() implies (#[trigger] pop_view(
                        next@,
                    )[q]).wf(self.city_list@) && mutated_of(
                        pop_view(next@)[q],
                        base[q],
                        self.city_list@,
                    ) by {
                        if q < m {
                            assert(pop_view(next@)[q] == pop_view(prevn)[q]);
                        } else if q == m {
                            assert(pop_view(next@)[q] == t@);
                            // the member was `base[q]` before this pass
                            // and is one recomputed swap of it now
                            assert(pop_view(prevn)[q] == base[q]);
                            let (i, j) = choose|i: int, j: int|
                                0 <= i < self.city_list@.len() && 0 <= j < self.city_list@.len()
                                    && t@.order == base[q].order.update(
                                    i,
                                    base[q].order[j],
                                ).update(j, base[q].order[i]);
                            assert(0 <= i < base[q].order.len());
                        } else {
                            assert(pop_view(removed)[q - 1] == pop_view(prevn)[q]);
                            assert(pop_view(next@)[q] == pop_view(removed)[q - 1]);
                        }
                    }
                }
            }
            m += 1;
        }
        let ghost newpop = pop_view(next@);
        self.population = next;
        proof {
            assert(final(self).pop() =~= pop_view(final(self).population@));
            assert(final(self).champs() =~= old(self).champs());
            let sortedv = pop_view(sorted@);
            assert(ranked_of(sortedv, old(self).pop()));
            assert(generation_from(
                newpop,
                sortedv,
                old(self).cities(),
                old(self).rates().0,
                old(self).rates().2,
            )) by {
                assert(sortedv.len() == p);
                assert(surviving as int == surviving_count(
                    p as int,
                    old(self).rates().0,
                    old(self).rates().2,
                ));
                assert forall|k: int| 0 <= k < surviving implies mutated_of(
                    #[trigger] newpop[k],
                    sortedv[k],
                    old(self).cities(),
                ) by {
                    assert(base[k] == sortedv[k]);
                }
                assert(base[p - 2] == sortedv[p - 2] && base[p - 1] == sortedv[p - 1]);
            }
            assert(generation_composed(
                final(self).pop(),
                old(self).pop(),
                old(self).cities(),
                old(self).rates().0,
                old(self).rates().2,
            ));
        }
    }

    /// Runs exactly `iterations` generations, recording each
    /// generation's champion, and returns the best tour seen across the
    /// whole run, the initial population included — so the result is
    /// never less fit than generation zero's best, and with zero
    /// iterations it is exactly the fittest member of the untouched
    /// initial population.
    pub fn run(&mut self) -> (best: Path)
        requires
            old(self).wf(),
        ensures
            final(self).wf(),
            final(self).cities() == old(self).cities(),
            final(self).spec_iterations() == old(self).spec_iterations(),
            final(self).rates() == old(self).rates(),
            final(self).pop().len() == old(self).pop().len(),
            final(self).champs().len() == old(self).champs().len() + old(self).spec_iterations(),
            forall|k: int|
                0 <= k < old(self).champs().len() ==> final(self).champs()[k] == old(self).champs()[k],
            best@.wf(final(self).cities()),
            forall|j: int|
                0 <= j < old(self).pop().len() ==> (#[trigger] old(self).pop()[j]).fitness.denom
                    >= best@.fitness.denom,
            forall|k: int|
                old(self).champs().len() <= k < final(self).champs().len() ==> (#[trigger] final(self).champs()[k]).fitness.denom >= best@.fitness.denom,
            old(self).spec_iterations() > 0 ==> fittest_of(
                final(self).champs().last(),
                final(self).pop(),
            ),
            old(self).spec_iterations() == 0 ==> final(self).pop() == old(self).pop() && (
            exists|i: int| 0 <= i < old(self).pop().len() && best@ == old(self).pop()[i]),
    {
        let mut best = self.find_fittest();
        let total = self.iterations;
        let mut it: usize = 0;
        while it < total
            invariant
                it <= total,
                self.wf(),
                total == old(self).spec_iterations(),
                self.cities() == old(self).cities(),
                self.spec_iterations() == old(self).spec_iterations(),
                self.rates() == old(self).rates(),
                self.pop().len() == old(self).pop().len(),
                self.champs().len() == old(self).champs().len() + it,
                forall|k: int|
                    0 <= k < old(self).champs().len() ==> self.champs()[k] == old(self).champs()[k],
                best@.wf(self.cities()),
                forall|j: int|
                    0 <= j < old(self).pop().len() ==> (#[trigger] old(self).pop()[j]).fitness.denom >= best@.fitness.denom,
                forall|k: int|
                    old(self).champs().len() <= k < self.champs().len() ==> (
                    #[trigger] self.champs()[k]).fitness.denom >= best@.fitness.denom,
                it == 0 ==> self.pop() == old(self).pop(),
                it == 0 ==> exists|i: int|
                    0 <= i < old(self).pop().len() && best@ == old(self).pop()[i],
                it > 0 ==> fittest_of(self.champs().last(), self.pop()),
            decreases total - it,
        {
            self.generate_children();
            let challenger = self.find_fittest();
            proof {
                assert(fittest_of(challenger@, self.pop()));
            }
            if challenger.fitness.higher_than(&best.fitness) {
                best = challenger.duplicate();
            }
            let ghost prevc = self.paths@;
            self.paths.push(challenger);
            proof {
                lemma_pop_view_push(prevc, challenger);
                assert(self.champs().last() == challenger@);
            }
            it += 1;
        }
        best
    }
}

/// One scan step of the father's remainder: the last scanned gene joins
/// it exactly when the head does not already hold that gene.
proof fn lemma_father_remainder_step(fp: Seq<usize>, head: Seq<usize>)
    requires
        fp.len() > 0,
    ensures
        father_remainder(fp, head) == (if head.contains(fp.last()) {
            father_remainder(fp.drop_last(), head)
        } else {
            father_remainder(fp.drop_last(), head).push(fp.last())
        }),
{
    reveal(Seq::filter);
}

/// Every gene of the father's remainder comes from the father.
proof fn lemma_father_remainder_elem(fp: Seq<usize>, head: Seq<usize>, x: usize)
    requires
        father_remainder(fp, head).contains(x),
    ensures
        fp.contains(x),
    decreases fp.len(),
{
    if fp.len() == 0 {
        reveal(Seq::filter);
        assert(father_remainder(fp, head).len() == 0);
    } else {
        lemma_father_remainder_step(fp, head);
        let sub = father_remainder(fp.drop_last(), head);
        if !head.contains(fp.last()) && x == fp.last() {
            assert(fp[fp.len() - 1] == x);
        } else {
            assert(sub.contains(x)) by {
                if !head.contains(fp.last()) {
                    assert(sub.push(fp.last()).contains(x));
                }
            }
            lemma_father_remainder_elem(fp.drop_last(), head, x);
            let t = choose|t: int| 0 <= t < fp.drop_last().len() && fp.drop_last()[t] == x;
            assert(fp[t] == x);
        }
    }
}

proof fn lemma_pop_view_push(s: Seq<Path>, p: Path)
    ensures
        pop_view(s.push(p)) == pop_view(s).push(p@),
{
    assert(pop_view(s.push(p)) =~= pop_view(s).push(p@));
}

proof fn lemma_pop_view_push_wf(s: Seq<Path>, p: Path, cities: Seq<City>)
    requires
        forall|q: int| 0 <= q < s.len() ==> (#[trigger] pop_view(s)[q]).wf(cities),
        p@.wf(cities),
    ensures
        forall|q: int|
            0 <= q < s.push(p).len() ==> (#[trigger] pop_view(s.push(p))[q]).wf(cities),
{
    lemma_pop_view_push(s, p);
    assert forall|q: int| 0 <= q < s.push(p).len() implies (#[trigger] pop_view(s.push(p))[q]).wf(
        cities,
    ) by {
        if q < s.len() {
            assert(pop_view(s.push(p))[q] == pop_view(s)[q]);
        } else {
            assert(pop_view(s.push(p))[q] == p@);
        }
    }
}

proof fn lemma_pop_view_insert(s: Seq<Path>, k: int, p: Path)
    requires
        0 <= k <= s.len(),
    ensures
        pop_view(s.insert(k, p)) == pop_view(s).insert(k, p@),
{
    assert(pop_view(s.insert(k, p)) =~= pop_view(s).insert(k, p@));
}

proof fn lemma_pop_view_remove(s: Seq<Path>, k: int)
    requires
        0 <= k < s.len(),
    ensures
        pop_view(s.remove(k)) == pop_view(s).remove(k),
{
    assert(pop_view(s.remove(k)) =~= pop_view(s).remove(k));
}

/// Somewhere in the father, at or past the scan position, sits a gene
/// that is not yet in the child: fewer genes are placed than exist, the
/// father carries every gene, and everything before the scan position is
/// already placed.
proof fn lemma_unused_father_gene(
    placed: Seq<usize>,
    used: Seq<bool>,
    father: Seq<usize>,
    n: nat,
    fi: int,
)
    requires
        n <= usize::MAX,
        placed.no_duplicates(),
        forall|q: int| 0 <= q < placed.len() ==> placed[q] < n,
        placed.len() < n,
        used.len() == n,
        forall|v: int| 0 <= v < n ==> (used[v] <==> placed.contains(v as usize)),
        is_permutation(father, n),
        0 <= fi <= n,
        forall|j: int| 0 <= j < fi ==> used[father[j] as int],
    ensures
        exists|j0: int| fi <= j0 < n && !used[father[j0] as int],
{
    assert(exists|v: usize| v < n && !placed.contains(v)) by {
        if forall|v: usize| v < n ==> placed.contains(v) {
            lemma_covering_len(placed, n);
        }
    }
    let v = choose|v: usize| v < n && !placed.contains(v);
    lemma_permutation_contains(father, n, v);
    let j0 = choose|j0: int| 0 <= j0 < father.len() && father[j0] == v;
    assert(!used[father[j0] as int]);
    assert(fi <= j0 < n && !used[father[j0] as int]);
}

/// A child whose every position was filled once, with pairwise-distinct
/// in-range genes, is a permutation.
proof fn lemma_child_complete(
    child: Seq<usize>,
    filled: Seq<bool>,
    locs: Seq<usize>,
    placed: Seq<usize>,
    n: nat,
)
    requires
        n <= usize::MAX,
        child.len() == n,
        filled.len() == n,
        placed.len() == locs.len(),
        locs.no_duplicates(),
        forall|q: int| 0 <= q < locs.len() ==> locs[q] < n,
        placed.no_duplicates(),
        forall|q: int| 0 <= q < placed.len() ==> placed[q] < n,
        forall|i: int| 0 <= i < n ==> (filled[i] <==> locs.contains(i as usize)),
        forall|i: int| 0 <= i < n ==> filled[i],
        forall|q: int| 0 <= q < locs.len() ==> child[locs[q] as int] == placed[q],
    ensures
        is_permutation(child, n),
{
    assert forall|v: usize| v < n implies locs.contains(v) by {
        assert(filled[v as int]);
    }
    lemma_covering_len(locs, n);
    lemma_distinct_bounded_len(locs, n);
    assert forall|i: int| 0 <= i < n implies child[i] < n by {
        assert(locs.contains(i as usize));
        let q = choose|q: int| 0 <= q < locs.len() && locs[q] == i as usize;
        assert(child[i] == placed[q]);
    }
    assert forall|a: int, b: int| 0 <= a < b < n implies child[a] != child[b] by {
        assert(locs.contains(a as usize) && locs.contains(b as usize));
        let qa = choose|q: int| 0 <= q < locs.len() && locs[q] == a as usize;
        let qb = choose|q: int| 0 <= q < locs.len() && locs[q] == b as usize;
        assert(qa != qb);
        assert(child[a] == placed[qa] && child[b] == placed[qb]);
    }
    assert(child.no_duplicates());
}

} // verus!
