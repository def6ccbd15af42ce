//! Tours: orders in which every city is visited once, with their fitness.
use crate::geometry::distance;
use crate::geometry::lemma_distance_symmetric;
use crate::geometry::City;
use crate::geometry::DISTANCE_BOUND;
use crate::random::random_index;
use vstd::prelude::*;

verus! {

/// The fitness of a tour is the reciprocal of its total open-path length, and is held
/// here as that length: the shorter length is the greater fitness. A length of zero
/// (all visited cities at one place) stands for an infinite fitness, which exceeds
/// every other.
#[derive(Clone, Copy, Debug, PartialEq, Eq, Structural)]
pub struct Fitness {
    pub length: u128,
}

impl Fitness {
    /// Whether this fitness is strictly greater than `other`'s.
    pub fn exceeds(&self, other: &Fitness) -> (r: bool)
        ensures
            r == (self.length < other.length),
    {
        self.length < other.length
    }
}

/// `s` holds each of `0, 1, ..., n - 1` exactly once, and nothing else.
pub open spec fn is_permutation(s: Seq<usize>, n: nat) -> bool {
    &&& s.len() == n
    &&& s.no_duplicates()
    &&& forall|i: int| 0 <= i < s.len() ==> (s[i] as nat) < n
}

/// Total length of the open path that visits `cities` in `order`, with no edge back
/// to the start.
pub open spec fn path_length(order: Seq<usize>, cities: Seq<City>) -> nat
    decreases order.len(),
{
    if order.len() < 2 {
        0
    } else {
        path_length(order.drop_last(), cities) + distance(
            cities[order[order.len() - 2] as int],
            cities[order.last() as int],
        )
    }
}

/// `s` read from its end to its start.
pub open spec fn reversed(s: Seq<usize>) -> Seq<usize> {
    Seq::new(s.len(), |i: int| s[s.len() - 1 - i])
}

/// Ordered crossover: the first `point` entries of `mother`, then the entries of
/// `father` that are not among them, in `father`'s order.
pub open spec fn crossover_seq(mother: Seq<usize>, father: Seq<usize>, point: nat) -> Seq<usize> {
    mother.take(point as int) + father.filter(|d: usize| !mother.take(point as int).contains(d))
}

/// `s` with the entries at `i` and `j` exchanged.
pub open spec fn swapped(s: Seq<usize>, i: int, j: int) -> Seq<usize> {
    s.update(i, s[j]).update(j, s[i])
}

/// The indices below `n`.
pub open spec fn indices_below(n: nat) -> Set<usize> {
    Set::new(|k: usize| (k as nat) < n)
}

proof fn lemma_indices_below_len(n: nat)
    requires
        n <= usize::MAX,
    ensures
        indices_below(n).finite(),
        indices_below(n).len() == n,
    decreases n,
{
    if n == 0 {
        assert(indices_below(n) =~= Set::empty());
    } else {
        lemma_indices_below_len((n - 1) as nat);
        assert(indices_below(n) =~= indices_below((n - 1) as nat).insert((n - 1) as usize));
    }
}

/// A sequence of distinct indices below `n` has at most `n` entries, and with `n`
/// entries it holds every index below `n`.
pub proof fn lemma_distinct_indices(s: Seq<usize>, n: nat)
    requires
        n <= usize::MAX,
        s.no_duplicates(),
        forall|i: int| 0 <= i < s.len() ==> (s[i] as nat) < n,
    ensures
        s.len() <= n,
        s.len() == n ==> forall|k: usize| (k as nat) < n ==> s.contains(k),
{
    lemma_indices_below_len(n);
    s.unique_seq_to_set();
    assert(s.to_set().subset_of(indices_below(n)));
    vstd::set_lib::lemma_len_subset(s.to_set(), indices_below(n));
    if s.len() == n {
        vstd::set_lib::lemma_subset_equality(s.to_set(), indices_below(n));
        assert forall|k: usize| (k as nat) < n implies s.contains(k) by {
            assert(indices_below(n).contains(k));
        }
    }
}

/// A sequence of distinct entries that holds every index below `n` has at least `n`
/// entries.
pub proof fn lemma_covering_indices(s: Seq<usize>, n: nat)
    requires
        n <= usize::MAX,
        s.no_duplicates(),
        forall|k: usize| (k as nat) < n ==> s.contains(k),
    ensures
        s.len() >= n,
{
    lemma_indices_below_len(n);
    s.unique_seq_to_set();
    vstd::seq_lib::seq_to_set_is_finite(s);
    assert(indices_below(n).subset_of(s.to_set()));
    vstd::set_lib::lemma_len_subset(indices_below(n), s.to_set());
}

proof fn lemma_length_prepend(x: usize, t: Seq<usize>, cities: Seq<City>)
    requires
        t.len() > 0,
    ensures
        path_length(seq![x] + t, cities) == distance(cities[x as int], cities[t[0] as int])
            + path_length(t, cities),
    decreases t.len(),
{
    let xt = seq![x] + t;
    if t.len() == 1 {
        assert(xt.drop_last() =~= seq![x]);
        assert(path_length(seq![x], cities) == 0);
        assert(path_length(t, cities) == 0);
        assert(xt[0] == x && xt[1] == t[0]);
    } else {
        lemma_length_prepend(x, t.drop_last(), cities);
        assert(xt.drop_last() =~= seq![x] + t.drop_last());
        assert(xt[xt.len() - 2] == t[t.len() - 2]);
        assert(xt.last() == t.last());
        assert(t.drop_last()[0] == t[0]);
    }
}

/// An open path is as long read backwards as forwards, so reversing a tour keeps
/// its fitness.
pub proof fn lemma_reversal_keeps_length(order: Seq<usize>, cities: Seq<City>)
    ensures
        path_length(reversed(order), cities) == path_length(order, cities),
    decreases order.len(),
{
    if order.len() >= 2 {
        let n = order.len();
        let rest = order.drop_last();
        lemma_reversal_keeps_length(rest, cities);
        assert(reversed(order) =~= seq![order.last()] + reversed(rest));
        lemma_length_prepend(order.last(), reversed(rest), cities);
        lemma_distance_symmetric(cities[order[n - 2] as int], cities[order[n - 1] as int]);
    } else {
        assert(reversed(order).len() < 2);
    }
}

/// Whether the first `len` entries of `v` hold `x`.
fn prefix_contains(v: &Vec<usize>, len: usize, x: usize) -> (r: bool)
    requires
        len <= v.len(),
    ensures
        r == v@.take(len as int).contains(x),
{
    let mut k: usize = 0;
    while k < len
        invariant
            k <= len <= v.len(),
            !v@.take(k as int).contains(x),
        decreases len - k,
    {
        if v[k] == x {
            assert(v@.take(len as int)[k as int] == x);
            return true;
        }
        assert(v@.take(k as int + 1) =~= v@.take(k as int).push(v[k as int]));
        k = k + 1;
    }
    false
}

/// A candidate tour: an order of the city indices and the fitness of that order.
#[derive(Clone, Debug)]
pub struct Path {
    pub fitness: Fitness,
    pub order: Vec<usize>,
}

impl Path {
    /// The order is a permutation of the indices of `cities` and the fitness is that
    /// of the order.
    pub open spec fn wf(&self, cities: Seq<City>) -> bool {
        &&& is_permutation(self.order@, cities.len())
        &&& self.fitness.length == path_length(self.order@, cities)
    }

    /// The fitness of visiting `city_list` in the order `path`: the reciprocal of the
    /// total length of the open path, held as that length (see `Fitness`).
    pub fn calculate_fitness(path: &Vec<usize>, city_list: &Vec<City>) -> (r: Fitness)
        requires
            forall|i: int| 0 <= i < path.len() ==> (path@[i] as nat) < city_list.len(),
        ensures
            r.length == path_length(path@, city_list@),
    {
        if path.len() < 2 {
            return Fitness { length: 0 };
        }
        let mut cost: u128 = 0;
        let mut i: usize = 0;
        assert(path@.take(1).len() == 1);
        while i + 1 < path.len()
            invariant
                i < path.len(),
                forall|k: int| 0 <= k < path.len() ==> (path@[k] as nat) < city_list.len(),
                cost == path_length(path@.take(i + 1), city_list@),
                cost <= i * DISTANCE_BOUND,
            decreases path.len() - i,
        {
            let d = city_list[path[i]].distance_to(&city_list[path[i + 1]]);
            let ghost next = path@.take(i + 2);
            assert(next.drop_last() =~= path@.take(i + 1));
            assert(next[i as int] == path@[i as int] && next.last() == path@[i + 1]);
            assert((i + 1) * DISTANCE_BOUND <= 0x1_0000_0000_0000_0000 * 0x2_0000_0000)
                by (nonlinear_arith)
                requires i + 1 <= 0x1_0000_0000_0000_0000;
            assert(cost + d <= (i + 1) * DISTANCE_BOUND) by (nonlinear_arith)
                requires cost <= i * DISTANCE_BOUND, d < DISTANCE_BOUND;
            cost = cost + d as u128;
            i = i + 1;
        }
        assert(path@.take(i + 1) =~= path@);
        Fitness { length: cost }
    }

    /// Ordered crossover of two tours at `crossover_point`: the first
    /// `crossover_point` entries of `mother`, followed by the entries of `father` that
    /// are not among them, in `father`'s order. The child is again a permutation.
    pub fn crossover_order(mother: &Vec<usize>, father: &Vec<usize>, crossover_point: usize) -> (r:
        Vec<usize>)
        requires
            is_permutation(mother@, mother.len() as nat),
            is_permutation(father@, mother.len() as nat),
            crossover_point <= mother.len(),
        ensures
            r@ == crossover_seq(mother@, father@, crossover_point as nat),
            is_permutation(r@, mother.len() as nat),
    {
        let n = mother.len();
        let ghost head = mother@.take(crossover_point as int);
        let ghost pred = |d: usize| !mother@.take(crossover_point as int).contains(d);
        let mut child: Vec<usize> = Vec::new();
        let mut k: usize = 0;
        while k < crossover_point
            invariant
                k <= crossover_point <= n == mother.len(),
                child@ == mother@.take(k as int),
            decreases crossover_point - k,
        {
            child.push(mother[k]);
            assert(mother@.take(k as int + 1) =~= mother@.take(k as int).push(mother[k as int]));
            k = k + 1;
        }
        assert(head.no_duplicates());
        let mut j: usize = 0;
        while j < father.len()
            invariant
                j <= father.len() == n == mother.len(),
                crossover_point <= n,
                is_permutation(mother@, n as nat),
                is_permutation(father@, n as nat),
                head == mother@.take(crossover_point as int),
                pred == (|d: usize| !mother@.take(crossover_point as int).contains(d)),
                child@ == head + father@.take(j as int).filter(pred),
                child@.no_duplicates(),
                forall|x: usize|
                    #[trigger] child@.contains(x) <==> (head.contains(x) || father@.take(
                        j as int,
                    ).contains(x)),
                forall|i: int| 0 <= i < child@.len() ==> (child@[i] as nat) < n,
            decreases father.len() - j,
        {
            let d = father[j];
            let ghost before = child@;
            assert(father@.take(j as int + 1) =~= father@.take(j as int).push(d));
            proof { father@.take(j as int).lemma_filter_push(d, pred); }
            if !prefix_contains(mother, crossover_point, d) {
                assert(!father@.take(j as int).contains(d)) by {
                    if father@.take(j as int).contains(d) {
                        let t = choose|t: int| 0 <= t < j && father@[t] == d;
                        assert(father@[t] == father@[j as int]);
                    }
                }
                assert(!before.contains(d));
                child.push(d);
                assert forall|a: int, b: int|
                    0 <= a < child@.len() && 0 <= b < child@.len() && a != b implies child@[a]
                    != child@[b] by {
                    if a == child@.len() - 1 {
                        assert(before.contains(child@[b]) ==> child@[b] != d);
                        assert(before[b] == child@[b]);
                    } else if b == child@.len() - 1 {
                        assert(before[a] == child@[a]);
                    } else {
                        assert(before[a] == child@[a] && before[b] == child@[b]);
                    }
                }
                assert(child@ =~= head + father@.take(j as int + 1).filter(pred));
                assert forall|x: usize| child@.contains(x) implies (head.contains(x)
                    || father@.take(j as int + 1).contains(x)) by {
                    if x != d {
                        let t = choose|t: int| 0 <= t < child@.len() && child@[t] == x;
                        assert(before[t] == x);
                        assert(before.contains(x));
                        if father@.take(j as int).contains(x) {
                            let u = choose|u: int| 0 <= u < j && father@.take(j as int)[u] == x;
                            assert(father@.take(j as int + 1)[u] == x);
                        }
                    } else {
                        assert(father@.take(j as int + 1)[j as int] == d);
                    }
                }
                assert forall|x: usize| (head.contains(x) || father@.take(j as int + 1).contains(x))
                    implies child@.contains(x) by {
                    if x != d {
                        if father@.take(j as int + 1).contains(x) {
                            let t = choose|t: int| 0 <= t <= j && #[trigger] father@.take(j as int + 1)[t] == x;
                            assert(father@.take(j as int)[t] == x);
                            assert(father@.take(j as int).contains(x));
                        }
                        assert(head.contains(x) || father@.take(j as int).contains(x));
                        assert(before.contains(x));
                        let t = choose|t: int| 0 <= t < before.len() && before[t] == x;
                        assert(child@[t] == x);
                    } else {
                        assert(child@[child@.len() - 1] == d);
                    }
                }
            } else {
                assert(head.contains(d));
                assert(child@ =~= head + father@.take(j as int + 1).filter(pred));
                assert forall|x: usize| (head.contains(x) || father@.take(j as int + 1).contains(x))
                    implies child@.contains(x) by {
                    if father@.take(j as int + 1).contains(x) && x != d {
                        let t = choose|t: int| 0 <= t <= j && #[trigger] father@.take(j as int + 1)[t] == x;
                        assert(father@.take(j as int)[t] == x);
                        assert(father@.take(j as int).contains(x));
                    }
                    assert(head.contains(x) || father@.take(j as int).contains(x));
                }
                assert forall|x: usize| child@.contains(x) implies (head.contains(x)
                    || father@.take(j as int + 1).contains(x)) by {
                    if father@.take(j as int).contains(x) {
                        let t = choose|t: int| 0 <= t < j && father@.take(j as int)[t] == x;
                        assert(father@.take(j as int + 1)[t] == x);
                    }
                }
            }
            assert(forall|x: usize|
                #[trigger] child@.contains(x) <==> (head.contains(x) || father@.take(
                    j as int + 1,
                ).contains(x)));
            j = j + 1;
        }
        assert(father@.take(j as int) =~= father@);
        proof {
            lemma_distinct_indices(father@, n as nat);
            assert forall|x: usize| (x as nat) < n implies child@.contains(x) by {
                assert(father@.contains(x));
                assert(father@.take(j as int).contains(x));
            }
            lemma_distinct_indices(child@, n as nat);
            lemma_covering_indices(child@, n as nat);
        }
        child
    }

    /// A tour with the same order and fitness as this one.
    pub fn duplicate(&self) -> (r: Path)
        ensures
            r.order@ == self.order@,
            r.fitness == self.fitness,
    {
        let order = self.order.clone();
        assert(order@ =~= self.order@);
        Path { fitness: self.fitness, order }
    }

    /// The child of this tour (the mother) and `other` (the father) by ordered
    /// crossover at `crossover_point`, with its fitness.
    pub fn breed_at(&self, other: &Path, city_list: &Vec<City>, crossover_point: usize) -> (r: Path)
        requires
            self.wf(city_list@),
            other.wf(city_list@),
            crossover_point <= city_list.len(),
        ensures
            r.order@ == crossover_seq(self.order@, other.order@, crossover_point as nat),
            r.wf(city_list@),
    {
        let order = Path::crossover_order(&self.order, &other.order, crossover_point);
        let fitness = Path::calculate_fitness(&order, city_list);
        Path { fitness, order }
    }

    /// The child of this tour (the mother) and `other` (the father) by ordered
    /// crossover at a point drawn uniformly from `[0, number of cities)`.
    pub fn breed(&self, other: &Path, city_list: &Vec<City>) -> (r: Path)
        requires
            self.wf(city_list@),
            other.wf(city_list@),
            city_list.len() > 0,
        ensures
            exists|point: nat|
                point < city_list.len() && r.order@ == crossover_seq(
                    self.order@,
                    other.order@,
                    point,
                ),
            r.wf(city_list@),
    {
        let crossover_point = random_index(self.order.len());
        self.breed_at(other, city_list, crossover_point)
    }

    /// Exchanges the entries at `point_one` and `point_two` of the order and
    /// recomputes the fitness; equal points leave the tour as it was.
    pub fn mutate_at(&mut self, city_list: &Vec<City>, point_one: usize, point_two: usize)
        requires
            old(self).wf(city_list@),
            point_one < old(self).order.len(),
            point_two < old(self).order.len(),
        ensures
            final(self).order@ == swapped(old(self).order@, point_one as int, point_two as int),
            final(self).wf(city_list@),
    {
        let ghost s = self.order@;
        let a = self.order[point_one];
        let b = self.order[point_two];
        self.order.set(point_one, b);
        self.order.set(point_two, a);
        let ghost t = self.order@;
        assert(t =~= swapped(s, point_one as int, point_two as int));
        assert forall|p: int, q: int| 0 <= p < t.len() && 0 <= q < t.len() && p != q implies t[p]
            != t[q] by {
            let sp = if p == point_two as int {
                point_one as int
            } else if p == point_one as int {
                point_two as int
            } else {
                p
            };
            let sq = if q == point_two as int {
                point_one as int
            } else if q == point_one as int {
                point_two as int
            } else {
                q
            };
            assert(t[p] == s[sp] && t[q] == s[sq]);
        }
        self.fitness = Path::calculate_fitness(&self.order, city_list);
    }

    /// Exchanges two entries of the order at points drawn independently and uniformly
    /// (they may coincide) and recomputes the fitness.
    pub fn mutate(&mut self, city_list: &Vec<City>)
        requires
            old(self).wf(city_list@),
            city_list.len() > 0,
        ensures
            exists|i: int, j: int|
                0 <= i < old(self).order.len() && 0 <= j < old(self).order.len()
                    && final(self).order@ == swapped(old(self).order@, i, j),
            final(self).wf(city_list@),
    {
        let point_one = random_index(self.order.len());
        let point_two = random_index(self.order.len());
        self.mutate_at(city_list, point_one, point_two);
    }
}

} // verus!
