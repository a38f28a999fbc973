use trip_planner::TripPlanner;

fn catalog(cities: &[(&str, Vec<i32>)]) -> Vec<(String, Vec<i32>)> {
    cities.iter().map(|(name, prices)| (name.to_string(), prices.clone())).collect()
}

fn paris_london() -> Vec<(String, Vec<i32>)> {
    catalog(&[("Paris", vec![100, 150]), ("London", vec![200, 250])])
}

fn sorted(mut trips: Vec<Vec<i32>>) -> Vec<Vec<i32>> {
    trips.sort();
    trips
}

#[test]
fn test_trip_planner() {
    let planner = TripPlanner::new(paris_london(), 1, 400);
    let trips = planner.find_possible_trips();
    assert_eq!(trips.len(), 4);
}

#[test]
fn budget_reached_exactly_is_included() {
    let planner = TripPlanner::new(paris_london(), 1, 400);
    assert_eq!(
        planner.find_possible_trips(),
        vec![vec![100, 200], vec![100, 250], vec![150, 200], vec![150, 250]]
    );
}

#[test]
fn tight_budget_keeps_only_cheapest() {
    let planner = TripPlanner::new(paris_london(), 1, 300);
    assert_eq!(planner.find_possible_trips(), vec![vec![100, 200]]);
}

#[test]
fn single_option_over_budget() {
    let planner = TripPlanner::new(catalog(&[("A", vec![10])]), 1, 5);
    assert!(planner.find_possible_trips().is_empty());
}

#[test]
fn single_option_at_budget() {
    let planner = TripPlanner::new(catalog(&[("A", vec![10])]), 1, 10);
    assert_eq!(planner.find_possible_trips(), vec![vec![10]]);
}

#[test]
fn empty_catalog_gives_one_empty_trip() {
    let planner = TripPlanner::new(Vec::new(), 3, 0);
    assert_eq!(planner.find_possible_trips(), vec![Vec::<i32>::new()]);
    let planner = TripPlanner::new(Vec::new(), 3, 1000);
    assert_eq!(planner.find_possible_trips(), vec![Vec::<i32>::new()]);
}

#[test]
fn negative_budget_gives_nothing() {
    let planner = TripPlanner::new(Vec::new(), 1, -1);
    assert!(planner.find_possible_trips().is_empty());
    let planner = TripPlanner::new(paris_london(), 1, -5);
    assert!(planner.find_possible_trips().is_empty());
}

#[test]
fn city_without_options_gives_nothing() {
    let planner = TripPlanner::new(catalog(&[("A", vec![1, 2]), ("B", vec![])]), 1, 1000);
    assert!(planner.find_possible_trips().is_empty());
}

#[test]
fn options_all_above_even_share_give_nothing() {
    // Three cities, budget 30: every option is above 10.
    let cities = catalog(&[("A", vec![11, 40]), ("B", vec![12]), ("C", vec![11, 13])]);
    let planner = TripPlanner::new(cities, 1, 30);
    assert!(planner.find_possible_trips().is_empty());
}

#[test]
fn enumeration_is_repeatable() {
    let planner = TripPlanner::new(paris_london(), 2, 350);
    let first = planner.find_possible_trips();
    let second = planner.find_possible_trips();
    assert_eq!(first, second);
    assert_eq!(first, vec![vec![100, 200], vec![100, 250], vec![150, 200]]);
}

#[test]
fn larger_budget_keeps_every_trip() {
    let low = TripPlanner::new(paris_london(), 1, 350).find_possible_trips();
    let high = TripPlanner::new(paris_london(), 1, 400).find_possible_trips();
    for trip in &low {
        assert!(high.contains(trip));
    }
    assert_eq!(low.len(), 3);
    assert_eq!(high.len(), 4);
}

#[test]
fn every_trip_is_within_budget() {
    let cities = catalog(&[("A", vec![5, 1, 9]), ("B", vec![3, 7]), ("C", vec![0, 4, 2])]);
    let planner = TripPlanner::new(cities, 1, 12);
    let trips = planner.find_possible_trips();
    for trip in &trips {
        assert_eq!(trip.len(), 3);
        assert!(trip.iter().sum::<i32>() <= 12);
    }
    // Every combination within the budget, counted by hand.
    let mut expected = Vec::new();
    for a in [5, 1, 9] {
        for b in [3, 7] {
            for c in [0, 4, 2] {
                if a + b + c <= 12 {
                    expected.push(vec![a, b, c]);
                }
            }
        }
    }
    assert_eq!(sorted(trips.clone()), sorted(expected.clone()));
    assert_eq!(trips, expected);
}

#[test]
fn equal_prices_give_separate_trips() {
    let cities = catalog(&[("A", vec![100, 100]), ("B", vec![1])]);
    let planner = TripPlanner::new(cities, 1, 500);
    assert_eq!(planner.find_possible_trips(), vec![vec![100, 1], vec![100, 1]]);
}

#[test]
fn running_total_over_budget_is_pruned() {
    // The full total 0 fits, but the running total 10 already exceeds 5.
    let cities = catalog(&[("A", vec![10]), ("B", vec![-10])]);
    let planner = TripPlanner::new(cities, 1, 5);
    assert!(planner.find_possible_trips().is_empty());
    let cities = catalog(&[("A", vec![-10]), ("B", vec![10])]);
    let planner = TripPlanner::new(cities, 1, 5);
    assert_eq!(planner.find_possible_trips(), vec![vec![-10, 10]]);
}

#[test]
fn extreme_prices_do_not_overflow() {
    let cities = catalog(&[("A", vec![i32::MAX]), ("B", vec![i32::MAX])]);
    let planner = TripPlanner::new(cities, 1, i32::MAX);
    assert!(planner.find_possible_trips().is_empty());
    let cities = catalog(&[("A", vec![i32::MIN]), ("B", vec![i32::MIN]), ("C", vec![i32::MAX])]);
    let planner = TripPlanner::new(cities, 1, 0);
    assert_eq!(planner.find_possible_trips(), vec![vec![i32::MIN, i32::MIN, i32::MAX]]);
}

#[test]
fn days_per_city_is_kept() {
    let planner = TripPlanner::new(paris_london(), 4, 400);
    assert_eq!(planner.days_per_city(), 4);
}
