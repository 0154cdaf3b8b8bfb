use heap_locator::locator::{
    calculate_orthogonal_distance, distance, find_match, greedy_match, target_locator,
    LocateError, Matching,
};

fn group(members: &[(&str, i32, i32)]) -> Vec<(String, (i32, i32))> {
    members.iter().map(|(n, x, y)| (n.to_string(), (*x, *y))).collect()
}

fn matched(v: &[Option<usize>]) -> usize {
    v.iter().filter(|p| p.is_some()).count()
}

#[test]
fn distance_is_manhattan() {
    assert_eq!(distance((0, 0), (3, 4)), 7);
    assert_eq!(distance((-2, 5), (3, -1)), 11);
    assert_eq!(distance((1, 1), (1, 1)), 0);
    assert_eq!(calculate_orthogonal_distance((10, 10), (1, 0)), 19);
}

#[test]
fn two_by_two_scenario() {
    let g1 = group(&[("A", 0, 0), ("B", 10, 10)]);
    let g2 = group(&[("X", 1, 0), ("Y", 9, 9)]);
    assert_eq!(target_locator(&g1, &g2, "A"), Ok(("X".to_string(), 1, 0)));
    assert_eq!(target_locator(&g1, &g2, "B"), Ok(("Y".to_string(), 9, 9)));
}

#[test]
fn one_member_stops_after_one_match() {
    let g1 = group(&[("A", 0, 0)]);
    let g2 = group(&[("X", 5, 5), ("Y", 1, 1), ("Z", 9, 0)]);
    let m: Matching = greedy_match(&g1, &g2);
    assert_eq!(m.first, vec![Some(1)]);
    assert_eq!(m.second, vec![None, Some(0), None]);
    assert_eq!(target_locator(&g1, &g2, "A"), Ok(("Y".to_string(), 1, 1)));
}

#[test]
fn empty_first_group_is_not_found() {
    let g1 = group(&[]);
    let g2 = group(&[("X", 1, 0)]);
    assert_eq!(target_locator(&g1, &g2, "A"), Err(LocateError::NotFound));
}

#[test]
fn unknown_name_is_not_found() {
    let g1 = group(&[("A", 0, 0), ("B", 10, 10)]);
    let g2 = group(&[("X", 1, 0), ("Y", 9, 9)]);
    assert_eq!(target_locator(&g1, &g2, "C"), Err(LocateError::NotFound));
}

#[test]
fn unmatched_member_is_not_found() {
    let g1 = group(&[("A", 0, 0), ("B", 50, 50)]);
    let g2 = group(&[("X", 1, 1)]);
    assert_eq!(target_locator(&g1, &g2, "A"), Ok(("X".to_string(), 1, 1)));
    assert_eq!(target_locator(&g1, &g2, "B"), Err(LocateError::NotFound));
}

#[test]
fn matching_size_is_smaller_group() {
    let g1 = group(&[("A", 0, 0), ("B", 4, 7), ("C", -3, 2), ("D", 8, -8)]);
    let g2 = group(&[("W", 1, 1), ("X", 6, 6), ("Y", -9, 0)]);
    let m = greedy_match(&g1, &g2);
    assert_eq!(matched(&m.first), 3);
    assert_eq!(matched(&m.second), 3);
    let m = greedy_match(&g2, &g1);
    assert_eq!(matched(&m.first), 3);
    assert_eq!(matched(&m.second), 3);
}

#[test]
fn matching_is_one_to_one() {
    let g1 = group(&[("A", 0, 0), ("B", 1, 0), ("C", 2, 0), ("D", 3, 0)]);
    let g2 = group(&[("W", 0, 1), ("X", 0, 2), ("Y", 5, 5), ("Z", 1, 1)]);
    let m = greedy_match(&g1, &g2);
    for (i, p) in m.first.iter().enumerate() {
        let j = p.unwrap();
        assert_eq!(m.second[j], Some(i));
    }
    let mut partners: Vec<usize> = m.first.iter().map(|p| p.unwrap()).collect();
    partners.sort();
    partners.dedup();
    assert_eq!(partners.len(), 4);
}

#[test]
fn closest_pair_is_matched() {
    let g1 = group(&[("A", 0, 0), ("B", 3, 3), ("C", 20, 20)]);
    let g2 = group(&[("X", 4, 3), ("Y", 1, 1), ("Z", 30, 30)]);
    let m = greedy_match(&g1, &g2);
    assert_eq!(m.first[1], Some(0));
    assert_eq!(m.second[0], Some(1));
}

#[test]
fn greedy_is_not_optimal_assignment() {
    // A-X = 1 is taken first, leaving B with Y at 100 although
    // A-Y + B-X would total less.
    let g1 = group(&[("A", 0, 0), ("B", 2, 0)]);
    let g2 = group(&[("X", 1, 0), ("Y", -50, -49)]);
    assert_eq!(target_locator(&g1, &g2, "A"), Ok(("X".to_string(), 1, 0)));
    assert_eq!(target_locator(&g1, &g2, "B"), Ok(("Y".to_string(), -50, -49)));
}

#[test]
fn find_match_reads_given_matching() {
    let g1 = group(&[("A", 0, 0), ("B", 1, 1)]);
    let g2 = group(&[("X", 7, 8), ("Y", 9, 9)]);
    let m = Matching { first: vec![Some(1), None], second: vec![None, Some(0)] };
    assert_eq!(find_match(&g1, &g2, &m, "A"), Ok(("Y".to_string(), 9, 9)));
    assert_eq!(find_match(&g1, &g2, &m, "B"), Err(LocateError::NotFound));
}
