//! What holds of the planned trips for every catalog and budget.
use vstd::prelude::*;
use crate::planner::TripPlanner;
use crate::trips::{
    affordable, affordable_trips, combinations, fan_out, fits, lemma_filter_agree,
    lemma_filter_none, lemma_total_push, prepend_each, total,
};

verus! {

/// `t` takes exactly one option of each city, in traversal order.
pub open spec fn is_choice(t: Seq<i32>, cities: Seq<Seq<i32>>) -> bool {
    &&& t.len() == cities.len()
    &&& forall|i: int| 0 <= i < t.len() ==> #[trigger] cities[i].contains(t[i])
}

/// The test that a trip's total is within the budget.
pub open spec fn total_within(budget: int) -> spec_fn(Seq<i32>) -> bool {
    |t: Seq<i32>| total(t) <= budget
}

proof fn lemma_fan_out_member(options: Seq<i32>, tails: Seq<Seq<i32>>, t: Seq<i32>)
    requires
        fan_out(options, tails).contains(t),
    ensures
        t.len() > 0,
        options.contains(t[0]),
        tails.contains(t.drop_first()),
    decreases options.len(),
{
    let a = fan_out(options.drop_last(), tails);
    let b = prepend_each(options.last(), tails);
    let k = choose|k: int| 0 <= k < fan_out(options, tails).len() && fan_out(options, tails)[k]
        == t;
    if k < a.len() {
        assert(a[k] == t);
        lemma_fan_out_member(options.drop_last(), tails, t);
        let j = choose|j: int| 0 <= j < options.drop_last().len() && options.drop_last()[j] == t[0];
        assert(options[j] == t[0]);
    } else {
        let j = k - a.len();
        assert(b[j] == t);
        assert(t.drop_first() =~= tails[j]);
        assert(options[options.len() - 1] == t[0]);
    }
}

proof fn lemma_fan_out_complete(options: Seq<i32>, tails: Seq<Seq<i32>>, o: i32, u: Seq<i32>)
    requires
        options.contains(o),
        tails.contains(u),
    ensures
        fan_out(options, tails).contains(seq![o] + u),
    decreases options.len(),
{
    let a = fan_out(options.drop_last(), tails);
    let b = prepend_each(options.last(), tails);
    let j = choose|j: int| 0 <= j < tails.len() && tails[j] == u;
    if options.last() == o {
        assert((a + b)[a.len() + j] == seq![o] + u);
    } else {
        let k = choose|k: int| 0 <= k < options.len() && options[k] == o;
        assert(options.drop_last()[k] == o);
        lemma_fan_out_complete(options.drop_last(), tails, o, u);
        let m = choose|m: int| 0 <= m < a.len() && a[m] == seq![o] + u;
        assert((a + b)[m] == seq![o] + u);
    }
}

/// The combinations are exactly the trips that take one option of each city.
pub proof fn lemma_combinations_are_choices(cities: Seq<Seq<i32>>, t: Seq<i32>)
    ensures
        combinations(cities).contains(t) <==> is_choice(t, cities),
    decreases cities.len(),
{
    if cities.len() == 0 {
        if t.len() == 0 {
            assert(t =~= Seq::<i32>::empty());
            assert(combinations(cities)[0] == t);
        }
    } else {
        let rest = cities.drop_first();
        lemma_combinations_are_choices(rest, t.drop_first());
        if combinations(cities).contains(t) {
            lemma_fan_out_member(cities[0], combinations(rest), t);
            assert forall|i: int| 0 <= i < t.len() implies #[trigger] cities[i].contains(t[i]) by {
                if i > 0 {
                    assert(t.drop_first()[i - 1] == t[i]);
                    assert(rest[i - 1] == cities[i]);
                }
            }
        }
        if is_choice(t, cities) {
            assert(cities[0].contains(t[0]));
            assert forall|i: int| 0 <= i < t.len() - 1 implies #[trigger] rest[i].contains(
                t.drop_first()[i],
            ) by {
                assert(cities[i + 1].contains(t[i + 1]));
            }
            assert(seq![t[0]] + t.drop_first() =~= t);
            lemma_fan_out_complete(cities[0], combinations(rest), t[0], t.drop_first());
        }
    }
}

/// The number of ways to pick one option of each city.
pub open spec fn choice_count(cities: Seq<Seq<i32>>) -> nat
    decreases cities.len(),
{
    if cities.len() == 0 {
        1
    } else {
        cities[0].len() * choice_count(cities.drop_first())
    }
}

proof fn lemma_fan_out_len(options: Seq<i32>, tails: Seq<Seq<i32>>)
    ensures
        fan_out(options, tails).len() == options.len() * tails.len(),
    decreases options.len(),
{
    if options.len() > 0 {
        lemma_fan_out_len(options.drop_last(), tails);
        let m = options.len() as int;
        let k = tails.len() as int;
        assert((m - 1) * k + k == m * k) by (nonlinear_arith);
    }
}

/// The cross product holds one entry per way of picking an option of each
/// city: no combination is left out or repeated.
pub proof fn lemma_combinations_len(cities: Seq<Seq<i32>>)
    ensures
        combinations(cities).len() == choice_count(cities),
    decreases cities.len(),
{
    if cities.len() > 0 {
        lemma_combinations_len(cities.drop_first());
        lemma_fan_out_len(cities[0], combinations(cities.drop_first()));
    }
}

/// With non-negative prices a running total only grows, so a trip fits the
/// budget exactly when its whole total does.
pub proof fn lemma_affordable_iff_total(t: Seq<i32>, budget: int)
    requires
        forall|i: int| 0 <= i < t.len() ==> t[i] >= 0,
    ensures
        affordable(t, budget) <==> total(t) <= budget,
    decreases t.len(),
{
    assert(t.take(t.len() as int) =~= t);
    if t.len() > 0 {
        let d = t.drop_last();
        lemma_affordable_iff_total(d, budget);
        lemma_total_push(d, t.last());
        assert(d.push(t.last()) =~= t);
        if total(t) <= budget {
            assert(d.take(d.len() as int) =~= d);
            assert forall|k: int| 0 <= k <= t.len() implies #[trigger] total(t.take(k))
                <= budget by {
                if k < t.len() {
                    assert(t.take(k) =~= d.take(k));
                }
            }
        }
    } else {
        assert(t.take(0) =~= t);
    }
}

/// Exhaustiveness: with non-negative prices the planned trips are the whole
/// cross product of the cities' options, in order and each combination once,
/// less the combinations whose total exceeds the budget; so every choice of
/// one option per city within the budget is among them.
pub proof fn lemma_exhaustive(cities: Seq<Seq<i32>>, budget: int, t: Seq<i32>)
    requires
        forall|i: int, j: int|
            0 <= i < cities.len() && 0 <= j < cities[i].len() ==> #[trigger] cities[i][j] >= 0,
    ensures
        affordable_trips(cities, budget) == combinations(cities).filter(total_within(budget)),
        is_choice(t, cities) && total(t) <= budget ==> affordable_trips(cities, budget).contains(
            t,
        ),
{
    let all = combinations(cities);
    assert forall|k: int| 0 <= k < all.len() implies fits(budget)(#[trigger] all[k])
        == total_within(budget)(all[k]) by {
        assert(all.contains(all[k]));
        lemma_combinations_are_choices(cities, all[k]);
        assert forall|i: int| 0 <= i < all[k].len() implies all[k][i] >= 0 by {
            assert(cities[i].contains(all[k][i]));
        }
        lemma_affordable_iff_total(all[k], budget);
    }
    lemma_filter_agree(all, fits(budget), total_within(budget));
    if is_choice(t, cities) && total(t) <= budget {
        lemma_combinations_are_choices(cities, t);
        assert forall|i: int| 0 <= i < t.len() implies t[i] >= 0 by {
            assert(cities[i].contains(t[i]));
        }
        lemma_affordable_iff_total(t, budget);
        let k = choose|k: int| 0 <= k < all.len() && all[k] == t;
        all.lemma_filter_contains(fits(budget), k);
    }
}

/// Soundness: every planned trip takes one option of each city and its total
/// is within the budget.
pub proof fn lemma_sound(cities: Seq<Seq<i32>>, budget: int, t: Seq<i32>)
    requires
        affordable_trips(cities, budget).contains(t),
    ensures
        is_choice(t, cities),
        total(t) <= budget,
{
    let found = affordable_trips(cities, budget);
    let k = choose|k: int| 0 <= k < found.len() && found[k] == t;
    combinations(cities).lemma_filter_pred(fits(budget), k);
    combinations(cities).lemma_filter_contains_rev(fits(budget), t);
    lemma_combinations_are_choices(cities, t);
    assert(t.take(t.len() as int) =~= t);
}

/// Monotonicity: a trip planned within a budget is also planned within any
/// larger budget.
pub proof fn lemma_budget_monotone(cities: Seq<Seq<i32>>, low: int, high: int, t: Seq<i32>)
    requires
        low <= high,
        affordable_trips(cities, low).contains(t),
    ensures
        affordable_trips(cities, high).contains(t),
{
    let all = combinations(cities);
    let found = affordable_trips(cities, low);
    let k = choose|k: int| 0 <= k < found.len() && found[k] == t;
    all.lemma_filter_pred(fits(low), k);
    all.lemma_filter_contains_rev(fits(low), t);
    let m = choose|m: int| 0 <= m < all.len() && all[m] == t;
    assert(affordable(t, high));
    all.lemma_filter_contains(fits(high), m);
}

/// Idempotence: two enumerations by the same unchanged planner give the same
/// trips, in the same order, and so the same set of trips.
pub proof fn lemma_repeatable(planner: &TripPlanner, first: Seq<Seq<i32>>, second: Seq<Seq<i32>>)
    requires
        first == affordable_trips(planner.prices(), planner.budget()),
        second == affordable_trips(planner.prices(), planner.budget()),
    ensures
        first == second,
        first.to_set() == second.to_set(),
{
}

proof fn lemma_total_above_share(t: Seq<i32>, n: int, budget: int)
    requires
        n > 0,
        forall|i: int| 0 <= i < t.len() ==> #[trigger] t[i] * n > budget,
    ensures
        t.len() > 0 ==> total(t) * n > t.len() * budget,
    decreases t.len(),
{
    if t.len() > 0 {
        let d = t.drop_last();
        lemma_total_above_share(d, n, budget);
        let x = t.last();
        assert(t[t.len() - 1] * n > budget);
        let td = total(d);
        let len = d.len() as int;
        if len > 0 {
            assert((td + x) * n > (len + 1) * budget) by (nonlinear_arith)
                requires
                    td * n > len * budget,
                    x * n > budget,
            ;
        } else {
            assert(d.len() == 0);
            assert((0 + x) * n > (0 + 1) * budget) by (nonlinear_arith)
                requires
                    x * n > budget,
            ;
        }
    }
}

/// Emptiness: no trip is planned when some city has no options, or when
/// every option of every city is more than an even share of the budget.
pub proof fn lemma_empty(cities: Seq<Seq<i32>>, budget: int)
    requires
        (exists|i: int| 0 <= i < cities.len() && #[trigger] cities[i].len() == 0) || (cities.len()
            > 0 && forall|i: int, j: int|
            0 <= i < cities.len() && 0 <= j < cities[i].len() ==> #[trigger] cities[i][j]
                * cities.len() > budget),
    ensures
        affordable_trips(cities, budget).len() == 0,
{
    let all = combinations(cities);
    let n = cities.len() as int;
    assert forall|k: int| 0 <= k < all.len() implies !fits(budget)(#[trigger] all[k]) by {
        let t = all[k];
        assert(all.contains(t));
        lemma_combinations_are_choices(cities, t);
        if exists|i: int| 0 <= i < cities.len() && #[trigger] cities[i].len() == 0 {
            let i = choose|i: int| 0 <= i < cities.len() && #[trigger] cities[i].len() == 0;
            assert(cities[i].contains(t[i]));
        } else {
            assert forall|i: int| 0 <= i < t.len() implies #[trigger] t[i] * n > budget by {
                assert(cities[i].contains(t[i]));
                let j = choose|j: int| 0 <= j < cities[i].len() && cities[i][j] == t[i];
                assert(cities[i][j] * cities.len() > budget);
            }
            lemma_total_above_share(t, n, budget);
            let tot = total(t);
            assert(tot > budget) by (nonlinear_arith)
                requires
                    tot * n > n * budget,
                    n > 0,
            ;
            assert(t.take(t.len() as int) =~= t);
        }
    }
    lemma_filter_none(all, fits(budget));
}

} // verus!
