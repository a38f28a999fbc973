//! The search engine: a fixed list of cities with their price options, a
//! budget, and a backtracking search over one price per city.
use vstd::prelude::*;
use crate::trips::{
    affordable, affordable_trips, combinations, completions, fan_out, lemma_affordable_push,
    lemma_completions_done, lemma_completions_from_start, lemma_completions_step, fits, prepend,
    lemma_total_lower_bound, lemma_total_push, total, trip_views,
};

verus! {

/// Plans trips through a fixed, ordered list of cities within a budget.
pub struct TripPlanner {
    /// Each city's name with its price options, in traversal order.
    city_prices: Vec<(String, Vec<i32>)>,
    /// Advisory: kept with the planner, not used by the search.
    days_per_city: usize,
    /// Inclusive upper bound on a trip's running total.
    max_budget: i32,
}

/// The price options of each city, in traversal order.
pub open spec fn prices_of(cities: Seq<(String, Vec<i32>)>) -> Seq<Seq<i32>> {
    cities.map_values(|c: (String, Vec<i32>)| c.1@)
}

/// No two cities share a name.
pub open spec fn names_distinct(cities: Seq<(String, Vec<i32>)>) -> bool {
    forall|i: int, j: int|
        0 <= i < j < cities.len() ==> (#[trigger] cities[i]).0@ != (#[trigger] cities[j]).0@
}

impl TripPlanner {
    /// The price options of each city, in traversal order.
    pub closed spec fn prices(&self) -> Seq<Seq<i32>> {
        prices_of(self.city_prices@)
    }

    /// The city names, in traversal order.
    pub closed spec fn city_names(&self) -> Seq<Seq<char>> {
        self.city_prices@.map_values(|c: (String, Vec<i32>)| c.0@)
    }

    /// The inclusive upper bound on every running total.
    pub closed spec fn budget(&self) -> int {
        self.max_budget as int
    }

    /// The days to spend in each city.
    pub closed spec fn days(&self) -> nat {
        self.days_per_city as nat
    }

    /// Well-formed: every city appears once.
    pub closed spec fn wf(&self) -> bool {
        names_distinct(self.city_prices@)
    }

    /// A planner over the given cities, visited in the given order.
    pub fn new(city_prices: Vec<(String, Vec<i32>)>, days_per_city: usize, max_budget: i32) -> (r:
        Self)
        requires
            names_distinct(city_prices@),
        ensures
            r.wf(),
            r.prices() == prices_of(city_prices@),
            r.city_names() == city_prices@.map_values(|c: (String, Vec<i32>)| c.0@),
            r.days() == days_per_city,
            r.budget() == max_budget,
    {
        TripPlanner { city_prices, days_per_city, max_budget }
    }

    /// The days to spend in each city, as given at construction.
    pub fn days_per_city(&self) -> (r: usize)
        ensures
            r == self.days(),
    {
        self.days_per_city
    }

    /// Every trip of one price per city, in traversal order, whose running
    /// total never exceeds the budget. With no cities the one empty trip is
    /// returned, when the budget is not negative.
    pub fn find_possible_trips(&self) -> (r: Vec<Vec<i32>>)
        ensures
            trip_views(r@) == affordable_trips(self.prices(), self.budget()),
    {
        let mut result: Vec<Vec<i32>> = Vec::new();
        if self.max_budget < 0 {
            proof {
                let all = combinations(self.prices());
                let aff = fits(self.budget());
                assert forall|i: int| 0 <= i < all.len() implies !aff(#[trigger] all[i]) by {
                    assert(all[i].take(0) =~= Seq::<i32>::empty());
                    assert(total(all[i].take(0)) == 0);
                }
                crate::trips::lemma_filter_none(all, aff);
                assert(trip_views(result@) =~= Seq::<Seq<i32>>::empty());
            }
            return result;
        }
        let mut current_trip: Vec<i32> = Vec::new();
        proof {
            assert(trip_views(result@) =~= Seq::<Seq<i32>>::empty());
            assert(self.prices().skip(0) =~= self.prices());
            lemma_completions_from_start(self.prices(), self.budget());
        }
        self.backtrack(0, &mut current_trip, 0, &mut result);
        proof {
            assert(Seq::<Seq<i32>>::empty() + affordable_trips(self.prices(), self.budget())
                =~= affordable_trips(self.prices(), self.budget()));
        }
        result
    }

    /// Explores every choice for the cities from `depth` on, after the choices
    /// in `current_trip` (whose total is `spent`), and appends each complete
    /// trip that fits the budget to `result`.
    fn backtrack(
        &self,
        depth: usize,
        current_trip: &mut Vec<i32>,
        spent: i128,
        result: &mut Vec<Vec<i32>>,
    )
        requires
            depth <= self.city_prices@.len(),
            old(current_trip)@.len() == depth,
            spent == total(old(current_trip)@),
            affordable(old(current_trip)@, self.budget()),
        ensures
            final(current_trip)@ == old(current_trip)@,
            trip_views(final(result)@) == trip_views(old(result)@) + completions(
                old(current_trip)@,
                self.prices().skip(depth as int),
                self.budget(),
            ),
        decreases self.city_prices@.len() - depth,
    {
        let ghost prefix = current_trip@;
        let ghost start = trip_views(result@);
        if depth == self.city_prices.len() {
            let done = current_trip.clone();
            proof {
                assert(done@ =~= current_trip@);
            }
            result.push(done);
            proof {
                assert(self.prices().skip(depth as int) =~= Seq::<Seq<i32>>::empty());
                lemma_completions_done(prefix, self.budget());
                assert(trip_views(result@) =~= start + seq![prefix]);
            }
            return;
        }
        let n = self.city_prices.len();
        let options = &self.city_prices[depth].1;
        let ghost rest = self.prices().skip(depth as int + 1);
        let ghost tails = combinations(rest);
        let ghost pre = prepend(prefix);
        let ghost aff = fits(self.budget());
        proof {
            let here = self.prices().skip(depth as int);
            assert(here.drop_first() =~= rest);
            assert(here[0] == options@);
            assert(options@.take(0) =~= Seq::<i32>::empty());
            assert(fan_out(options@.take(0), tails).map_values(pre) =~= Seq::<Seq<i32>>::empty());
            assert(Seq::<Seq<i32>>::empty().filter(aff) =~= Seq::<Seq<i32>>::empty()) by {
                reveal(Seq::filter);
            }
            assert(trip_views(result@) =~= start + Seq::<Seq<i32>>::empty());
            lemma_total_lower_bound(prefix);
            assert(prefix.take(depth as int) =~= prefix);
            assert(i32::MIN * depth >= i32::MIN * (usize::MAX as int)) by (nonlinear_arith)
                requires
                    depth <= usize::MAX,
            ;
        }
        let mut i: usize = 0;
        while i < options.len()
            invariant
                n == self.city_prices@.len(),
                n > depth,
                options@ == self.prices()[depth as int],
                rest == self.prices().skip(depth as int + 1),
                tails == combinations(rest),
                pre == prepend(prefix),
                aff == fits(self.budget()),
                prefix == old(current_trip)@,
                current_trip@ == prefix,
                prefix.len() == depth,
                spent == total(prefix),
                spent >= i32::MIN * (usize::MAX as int),
                spent <= self.budget(),
                affordable(prefix, self.budget()),
                i <= options@.len(),
                start == trip_views(old(result)@),
                trip_views(result@) == start + fan_out(options@.take(i as int), tails).map_values(
                    pre,
                ).filter(aff),
            decreases options@.len() - i,
        {
            let price = options[i];
            proof {
                lemma_completions_step(prefix, options@, i as int, tails, rest, self.budget());
                lemma_affordable_push(prefix, price, self.budget());
                lemma_total_push(prefix, price);
            }
            if spent + (price as i128) <= self.max_budget as i128 {
                current_trip.push(price);
                self.backtrack(depth + 1, current_trip, spent + (price as i128), result);
                current_trip.pop();
                proof {
                    assert(current_trip@ =~= prefix);
                    let after = fan_out(options@.take(i + 1), tails).map_values(pre).filter(aff);
                    assert(trip_views(result@) =~= start + after);
                }
            }
            i = i + 1;
        }
        proof {
            assert(options@.take(options@.len() as int) =~= options@);
            assert(self.prices().skip(depth as int) =~= seq![options@] + rest);
        }
    }
}

} // verus!
