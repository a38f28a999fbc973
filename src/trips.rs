//! The mathematical model of trips: the cross product of the cities' price
//! options in traversal order, and the running-total rule that decides which
//! trips fit a budget.
use vstd::prelude::*;

verus! {

/// Sum of the prices in a (partial) trip.
pub open spec fn total(t: Seq<i32>) -> int
    decreases t.len(),
{
    if t.len() == 0 {
        0
    } else {
        total(t.drop_last()) + t.last() as int
    }
}

/// A trip fits the budget when every running total along it, the empty one
/// included, stays within the budget.
pub open spec fn affordable(t: Seq<i32>, budget: int) -> bool {
    forall|k: int| 0 <= k <= t.len() ==> #[trigger] total(t.take(k)) <= budget
}

/// The test that a trip fits the budget.
pub open spec fn fits(budget: int) -> spec_fn(Seq<i32>) -> bool {
    |t: Seq<i32>| affordable(t, budget)
}

/// Puts `prefix` in front of a trip.
pub open spec fn prepend(prefix: Seq<i32>) -> spec_fn(Seq<i32>) -> Seq<i32> {
    |t: Seq<i32>| prefix + t
}

/// Every tail, with the price `o` put in front of it.
pub open spec fn prepend_each(o: i32, tails: Seq<Seq<i32>>) -> Seq<Seq<i32>> {
    tails.map_values(|t: Seq<i32>| seq![o] + t)
}

/// For each option in order, every tail with that option in front.
pub open spec fn fan_out(options: Seq<i32>, tails: Seq<Seq<i32>>) -> Seq<Seq<i32>>
    decreases options.len(),
{
    if options.len() == 0 {
        Seq::empty()
    } else {
        fan_out(options.drop_last(), tails) + prepend_each(options.last(), tails)
    }
}

/// All trips that take one option per city, in traversal order: the first
/// city's options vary slowest. Equal prices at different positions of a
/// city's list give separate trips.
pub open spec fn combinations(cities: Seq<Seq<i32>>) -> Seq<Seq<i32>>
    decreases cities.len(),
{
    if cities.len() == 0 {
        seq![Seq::empty()]
    } else {
        fan_out(cities[0], combinations(cities.drop_first()))
    }
}

/// The trips that the planner reports: the combinations, in order, whose
/// every running total stays within the budget.
pub open spec fn affordable_trips(cities: Seq<Seq<i32>>, budget: int) -> Seq<Seq<i32>> {
    combinations(cities).filter(fits(budget))
}

/// The affordable trips that start with `prefix` and continue through `cities`.
pub open spec fn completions(prefix: Seq<i32>, cities: Seq<Seq<i32>>, budget: int) -> Seq<
    Seq<i32>,
> {
    combinations(cities).map_values(prepend(prefix)).filter(fits(budget))
}

/// The contents of a list of trips.
pub open spec fn trip_views(v: Seq<Vec<i32>>) -> Seq<Seq<i32>> {
    v.map_values(|t: Vec<i32>| t@)
}

pub proof fn lemma_total_push(t: Seq<i32>, o: i32)
    ensures
        total(t.push(o)) == total(t) + o,
{
    assert(t.push(o).drop_last() =~= t);
}

/// A running total never falls below the smallest price times the length.
pub proof fn lemma_total_lower_bound(t: Seq<i32>)
    ensures
        total(t) >= i32::MIN * t.len(),
    decreases t.len(),
{
    if t.len() > 0 {
        lemma_total_lower_bound(t.drop_last());
    }
}

/// Extending an affordable trip by one price keeps it affordable exactly when
/// the new total is within the budget.
pub proof fn lemma_affordable_push(t: Seq<i32>, o: i32, budget: int)
    requires
        affordable(t, budget),
    ensures
        affordable(t.push(o), budget) <==> total(t) + o <= budget,
{
    lemma_total_push(t, o);
    let u = t.push(o);
    assert(u.take(u.len() as int) =~= u);
    if total(t) + o <= budget {
        assert forall|k: int| 0 <= k <= u.len() implies #[trigger] total(u.take(k)) <= budget by {
            if k <= t.len() {
                assert(u.take(k) =~= t.take(k));
            }
        }
    }
}

/// No extension of a trip that does not fit can fit.
pub proof fn lemma_unaffordable_extend(p: Seq<i32>, t: Seq<i32>, budget: int)
    requires
        !affordable(p, budget),
    ensures
        !affordable(p + t, budget),
{
    let k = choose|k: int| 0 <= k <= p.len() && !(#[trigger] total(p.take(k)) <= budget);
    assert((p + t).take(k) =~= p.take(k));
}

/// Filtering a sequence none of whose elements passes gives nothing.
pub proof fn lemma_filter_none(s: Seq<Seq<i32>>, pred: spec_fn(Seq<i32>) -> bool)
    requires
        forall|i: int| 0 <= i < s.len() ==> !pred(#[trigger] s[i]),
    ensures
        s.filter(pred) == Seq::<Seq<i32>>::empty(),
    decreases s.len(),
{
    reveal(Seq::filter);
    if s.len() > 0 {
        lemma_filter_none(s.drop_last(), pred);
    }
    assert(s.filter(pred) =~= Seq::<Seq<i32>>::empty());
}

/// Filtering with two predicates that agree on every element gives the same result.
pub proof fn lemma_filter_agree(
    s: Seq<Seq<i32>>,
    p: spec_fn(Seq<i32>) -> bool,
    q: spec_fn(Seq<i32>) -> bool,
)
    requires
        forall|i: int| 0 <= i < s.len() ==> p(#[trigger] s[i]) == q(s[i]),
    ensures
        s.filter(p) == s.filter(q),
    decreases s.len(),
{
    reveal(Seq::filter);
    if s.len() > 0 {
        lemma_filter_agree(s.drop_last(), p, q);
    }
}

/// A one-element sequence whose element passes is kept whole.
pub proof fn lemma_filter_single(x: Seq<i32>, pred: spec_fn(Seq<i32>) -> bool)
    requires
        pred(x),
    ensures
        seq![x].filter(pred) == seq![x],
{
    reveal(Seq::filter);
    assert(seq![x].drop_last() =~= Seq::<Seq<i32>>::empty());
    assert(Seq::<Seq<i32>>::empty().filter(pred) =~= Seq::<Seq<i32>>::empty());
    assert(seq![x].filter(pred) =~= seq![x]);
}

/// The completions of a finished prefix: the prefix itself, when it fits.
pub proof fn lemma_completions_done(prefix: Seq<i32>, budget: int)
    requires
        affordable(prefix, budget),
    ensures
        completions(prefix, Seq::empty(), budget) == seq![prefix],
{
    let cities = Seq::<Seq<i32>>::empty();
    let mapped = combinations(cities).map_values(prepend(prefix));
    assert(prefix + Seq::<i32>::empty() =~= prefix);
    assert(mapped =~= seq![prefix]);
    lemma_filter_single(prefix, fits(budget));
}

/// The completions with an empty prefix are the affordable trips.
pub proof fn lemma_completions_from_start(cities: Seq<Seq<i32>>, budget: int)
    ensures
        completions(Seq::empty(), cities, budget) == affordable_trips(cities, budget),
{
    let all = combinations(cities);
    let mapped = all.map_values(prepend(Seq::empty()));
    assert forall|i: int| 0 <= i < all.len() implies mapped[i] == all[i] by {
        assert(Seq::<i32>::empty() + all[i] =~= all[i]);
    }
    assert(mapped =~= all);
}

/// One more option of the current city: the completions grow by those of the
/// prefix extended with that option, or by nothing when it does not fit.
pub proof fn lemma_completions_step(
    prefix: Seq<i32>,
    options: Seq<i32>,
    i: int,
    tails: Seq<Seq<i32>>,
    rest: Seq<Seq<i32>>,
    budget: int,
)
    requires
        0 <= i < options.len(),
        tails == combinations(rest),
    ensures
        ({
            let pre = prepend(prefix);
            let aff = fits(budget);
            let before = fan_out(options.take(i), tails).map_values(pre).filter(aff);
            let after = fan_out(options.take(i + 1), tails).map_values(pre).filter(aff);
            let ext = prefix.push(options[i]);
            &&& affordable(ext, budget) ==> after == before + completions(ext, rest, budget)
            &&& !affordable(ext, budget) ==> after == before
        }),
{
    let pre = prepend(prefix);
    let aff = fits(budget);
    let o = options[i];
    let ext = prefix.push(o);
    let a = fan_out(options.take(i), tails);
    let b = prepend_each(o, tails);
    assert(options.take(i + 1).drop_last() =~= options.take(i));
    assert(fan_out(options.take(i + 1), tails) == a + b);
    assert((a + b).map_values(pre) =~= a.map_values(pre) + b.map_values(pre));
    Seq::filter_distributes_over_add(a.map_values(pre), b.map_values(pre), aff);
    let ext_pre = prepend(ext);
    assert forall|j: int| 0 <= j < tails.len() implies b.map_values(pre)[j] == tails.map_values(
        ext_pre,
    )[j] by {
        assert(prefix + (seq![o] + tails[j]) =~= ext + tails[j]);
    }
    assert(b.map_values(pre) =~= tails.map_values(ext_pre));
    if !affordable(ext, budget) {
        assert forall|j: int| 0 <= j < tails.len() implies !aff(
            #[trigger] tails.map_values(ext_pre)[j],
        ) by {
            lemma_unaffordable_extend(ext, tails[j], budget);
        }
        lemma_filter_none(tails.map_values(ext_pre), aff);
        assert(a.map_values(pre).filter(aff) + Seq::<Seq<i32>>::empty() =~= a.map_values(
            pre,
        ).filter(aff));
    }
}

} // verus!
