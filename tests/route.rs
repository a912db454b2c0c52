use cart_route::frontier::Frontier;
use cart_route::matrix::{
    CGR_DOWN, CGR_DOWNLEFT, CGR_DOWNRIGHT, CGR_LEFT, CGR_NONE, CGR_RIGHT, CGR_UP, CGR_UPLEFT,
    CGR_UPRIGHT, INFINITY,
};
use cart_route::{
    calc_tour_cost, ext_dm, inverse_direction, k_dijkstra, relax, swap_edges, two_opt,
    DistanceMatrix,
};

#[test]
fn test_ext_edge_nof() {
    assert_eq!(ext_dm(1, 0, true), 20);
}

#[test]
fn test_ext_edge_f() {
    // 65 plus the two-floor elevator surcharge of 8
    assert_eq!(ext_dm(2, 5, true), 65 + 8);
}

#[test]
fn test_ext_prio() {
    assert_eq!(ext_dm(3, 3, false), 10);
}

#[test]
fn test_ext_sym_nof() {
    assert_eq!(ext_dm(0, 8, false), CGR_UPRIGHT);
}

#[test]
fn test_ext_sym_f() {
    // read against the stored orientation, the symbol comes back inverted
    assert_eq!(ext_dm(8, 0, false), CGR_DOWNLEFT);
}

/// A 3-node table: costs 0-1 = 5, 0-2 = 9, 1-2 = 2.
fn three_nodes() -> DistanceMatrix {
    DistanceMatrix::from_table(3, vec![1, 5, 9, CGR_UP, 2, 2, CGR_LEFT, CGR_DOWN, 3]).unwrap()
}

#[test]
fn cost_is_symmetric_on_campus() {
    let m = DistanceMatrix::campus();
    for u in 0..10 {
        for v in 0..10 {
            assert_eq!(m.cost(u, v), m.cost(v, u));
        }
    }
}

#[test]
fn direction_is_antisymmetric_on_campus() {
    let m = DistanceMatrix::campus();
    for u in 0..10 {
        for v in 0..10 {
            if u != v {
                assert_eq!(m.direction(u, v), inverse_direction(m.direction(v, u)));
                let d = m.direction(u, v);
                assert_eq!(inverse_direction(inverse_direction(d)), d);
            }
        }
    }
}

#[test]
fn inverse_pairs() {
    assert_eq!(inverse_direction(CGR_UP), CGR_DOWN);
    assert_eq!(inverse_direction(CGR_DOWN), CGR_UP);
    assert_eq!(inverse_direction(CGR_LEFT), CGR_RIGHT);
    assert_eq!(inverse_direction(CGR_RIGHT), CGR_LEFT);
    assert_eq!(inverse_direction(CGR_UPLEFT), CGR_DOWNRIGHT);
    assert_eq!(inverse_direction(CGR_DOWNRIGHT), CGR_UPLEFT);
    assert_eq!(inverse_direction(CGR_UPRIGHT), CGR_DOWNLEFT);
    assert_eq!(inverse_direction(CGR_DOWNLEFT), CGR_UPRIGHT);
    assert_eq!(inverse_direction(77), CGR_NONE);
}

#[test]
fn lookup_reads_each_triangle() {
    let m = three_nodes();
    assert_eq!(m.size(), 3);
    assert_eq!(m.priority(2), 3);
    assert_eq!(m.lookup(1, 1, true), 2);
    assert_eq!(m.lookup(2, 0, true), 9);
    assert_eq!(m.lookup(0, 2, false), CGR_LEFT);
    assert_eq!(m.lookup(2, 0, false), CGR_RIGHT);
    assert_eq!(m.direction(1, 2), CGR_DOWN);
    assert_eq!(m.direction(2, 1), CGR_UP);
}

#[test]
fn from_table_rejects_bad_tables() {
    assert!(DistanceMatrix::from_table(2, vec![1, 2, 3]).is_none());
    assert!(DistanceMatrix::from_table(2, vec![1, 2, 9, 4]).is_none());
    assert!(DistanceMatrix::from_table(2, vec![1, 2, CGR_RIGHT, 4]).is_some());
    assert!(DistanceMatrix::from_table(0, vec![]).is_some());
}

#[test]
fn frontier_extracts_minimum_first() {
    let mut f = Frontier::new(4);
    assert!(f.is_empty());
    f.insert(0, 30);
    f.insert(1, 10);
    f.insert(2, 20);
    f.insert(3, 40);
    f.decrease_key(3, 5);
    f.decrease_key(1, 50);
    assert!(!f.is_empty());
    assert_eq!(f.extract_min(), Some((3, 5)));
    assert_eq!(f.extract_min(), Some((1, 10)));
    f.decrease_key(3, 1);
    assert_eq!(f.extract_min(), Some((2, 20)));
    assert_eq!(f.extract_min(), Some((0, 30)));
    assert_eq!(f.extract_min(), None);
    assert!(f.is_empty());
}

#[test]
fn frontier_breaks_ties_by_node() {
    let mut f = Frontier::new(3);
    f.insert(2, 7);
    f.insert(0, 7);
    f.insert(1, 7);
    assert_eq!(f.extract_min(), Some((0, 7)));
    assert_eq!(f.extract_min(), Some((1, 7)));
    assert_eq!(f.extract_min(), Some((2, 7)));
}

#[test]
fn frontier_insert_replaces_key() {
    let mut f = Frontier::new(2);
    f.insert(4, 9);
    f.insert(4, 12);
    f.insert(5, 10);
    assert_eq!(f.extract_min(), Some((5, 10)));
    assert_eq!(f.extract_min(), Some((4, 12)));
}

#[test]
fn seeder_three_nodes() {
    let m = three_nodes();
    let (dist, prev) = k_dijkstra(&m, vec![0, 1, 2]);
    assert_eq!(dist, vec![0, 5, 7]);
    assert_eq!(prev[2].graph_index, 1);
    assert_eq!(prev[2].dm_index, 1);
    assert_eq!(prev[1].graph_index, 0);
}

#[test]
fn seeder_on_campus_subset() {
    let m = DistanceMatrix::campus();
    let (dist, prev) = k_dijkstra(&m, vec![0, 1, 6]);
    // 0 -> 1 costs 20, 1 -> 6 costs 8, 0 -> 6 directly 28
    assert_eq!(dist, vec![0, 20, 28]);
    assert_eq!(prev[1].dm_index, 0);
}

#[test]
fn seeder_saturates() {
    let m = DistanceMatrix::from_table(3, vec![0, 200, 255, CGR_UP, 0, 100, CGR_UP, CGR_UP, 0])
        .unwrap();
    let (dist, prev) = k_dijkstra(&m, vec![0, 1, 2]);
    assert_eq!(dist, vec![0, 200, INFINITY]);
    assert_eq!(prev[2].graph_index, 0);
    assert_eq!(prev[2].dm_index, 0);
}

#[test]
fn relax_never_wraps() {
    assert_eq!(relax(INFINITY, 10, INFINITY), None);
    assert_eq!(relax(INFINITY, 0, 3), None);
    assert_eq!(relax(250, 10, INFINITY), None);
    assert_eq!(relax(250, 10, 254), None);
    assert_eq!(relax(240, 10, INFINITY), Some(250));
    assert_eq!(relax(1, 2, 4), Some(3));
}

#[test]
fn tour_cost_includes_wraparound() {
    let m = DistanceMatrix::campus();
    let c = calc_tour_cost(&m, &vec![0, 1, 2]);
    assert_eq!(c, 20 + 20 + 40);
    assert_eq!(c, (m.cost(0, 1) + m.cost(1, 2) + m.cost(2, 0)) as u64);
    assert_eq!(calc_tour_cost(&m, &vec![]), 0);
    // a one-node tour has the single edge from the node to itself
    assert_eq!(calc_tour_cost(&m, &vec![4]), m.cost(4, 4) as u64);
}

#[test]
fn swap_reverses_inner_segment() {
    let mut t = vec![0, 1, 2, 3, 4];
    swap_edges(&mut t, 0, 3);
    assert_eq!(t, vec![0, 3, 2, 1, 4]);
    swap_edges(&mut t, 1, 4);
    assert_eq!(t, vec![0, 3, 4, 1, 2]);
}

/// Four nodes where edges 0-1 and 2-3 are dear and every other edge cheap.
fn crossed_square() -> DistanceMatrix {
    DistanceMatrix::from_table(
        4,
        vec![
            0, 10, 1, 1, //
            CGR_UP, 0, 1, 1, //
            CGR_UP, CGR_UP, 0, 10, //
            CGR_UP, CGR_UP, CGR_UP, 0,
        ],
    )
    .unwrap()
}

#[test]
fn two_opt_takes_improving_swap() {
    let m = crossed_square();
    let mut tour = vec![0, 1, 2, 3];
    assert_eq!(calc_tour_cost(&m, &tour), 22);
    two_opt(&m, &mut tour, 1);
    assert_eq!(tour, vec![0, 2, 1, 3]);
    assert_eq!(calc_tour_cost(&m, &tour), 4);
}

#[test]
fn two_opt_never_worse_and_settles() {
    let m = DistanceMatrix::campus();
    let start = vec![0, 9, 1, 6, 2, 8, 3];
    let mut tour = start.clone();
    let before = calc_tour_cost(&m, &tour);
    two_opt(&m, &mut tour, 1000);
    let after = calc_tour_cost(&m, &tour);
    assert!(after <= before);
    let mut sorted = tour.clone();
    sorted.sort();
    let mut expected = start.clone();
    expected.sort();
    assert_eq!(sorted, expected);

    let once = tour.clone();
    two_opt(&m, &mut tour, 1000);
    assert_eq!(tour, once);
}

#[test]
fn two_opt_zero_budget_keeps_tour() {
    let m = crossed_square();
    let mut tour = vec![0, 1, 2, 3];
    two_opt(&m, &mut tour, 0);
    assert_eq!(tour, vec![0, 1, 2, 3]);
}
