use pathtrace::nearest::nearest;

/// A hit as (primitive id, distance).
type Hit = (u32, f64);

fn closer(a: Hit, b: Hit) -> bool {
    a.1 < b.1
}

#[test]
fn no_primitives_no_hit() {
    let hits: Vec<Option<Hit>> = vec![];
    assert_eq!(nearest(&hits, &closer), None);
}

#[test]
fn all_missed_no_hit() {
    let hits: Vec<Option<Hit>> = vec![None, None, None];
    assert_eq!(nearest(&hits, &closer), None);
}

#[test]
fn globally_nearest_wins() {
    let hits = vec![Some((0, 3.0)), None, Some((2, 1.5)), Some((3, 2.0)), None];
    assert_eq!(nearest(&hits, &closer), Some((2, 1.5)));
}

#[test]
fn first_found_wins_at_equal_distance() {
    let hits = vec![None, Some((1, 2.0)), Some((2, 2.0)), Some((3, 4.0))];
    assert_eq!(nearest(&hits, &closer), Some((1, 2.0)));
}

#[test]
fn misses_do_not_change_choice() {
    let dense = vec![Some((0, 5.0)), Some((1, 0.25)), Some((2, 0.75))];
    let sparse = vec![None, Some((0, 5.0)), None, None, Some((1, 0.25)), Some((2, 0.75)), None];
    assert_eq!(nearest(&dense, &closer), nearest(&sparse, &closer));
    assert_eq!(nearest(&sparse, &closer), Some((1, 0.25)));
}
