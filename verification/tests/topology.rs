use maelstrom::ids::NodeId;
use maelstrom::topology::Topology;

fn nid(n: u64) -> NodeId {
    NodeId(n)
}

fn nids(ns: &[u64]) -> Vec<NodeId> {
    ns.iter().map(|&n| NodeId(n)).collect()
}

fn topo(pairs: &[(u64, &[u64])]) -> Topology {
    let v: Vec<(NodeId, Vec<NodeId>)> = pairs.iter().map(|&(k, ns)| (nid(k), nids(ns))).collect();
    Topology::from_pairs(v)
}

#[test]
fn test_contains_cycle() {
    let container = nids(&[1, 2, 3, 4, 5, 6, 7, 8, 9]);
    let windows: [[u64; 3]; 9] = [
        [1, 2, 3],
        [2, 3, 4],
        [3, 4, 5],
        [4, 5, 6],
        [5, 6, 7],
        [6, 7, 8],
        [7, 8, 9],
        [8, 9, 1],
        [9, 1, 2],
    ];
    let reversed: Vec<NodeId> = container.iter().rev().copied().collect();
    for window in windows.iter() {
        let w = nids(window);
        let reversed_window: Vec<NodeId> = w.iter().rev().copied().collect();
        assert!(Topology::contains_cycle(&container, &w));
        assert!(Topology::contains_cycle(&container, &reversed_window));
        assert!(Topology::contains_cycle(&reversed, &reversed_window));
    }
}

#[test]
fn not_existing() {
    let topology = Topology::default();
    assert!(topology.next(nid(1)).is_empty());
}

#[test]
fn no_neighbors() {
    /*
     *   1→2
     */
    let topology = topo(&[(1, &[2])]);

    assert_eq!(topology.next(nid(1)), nids(&[2]));
    assert!(topology.next(nid(2)).is_empty());
}

#[test]
fn one_neighbor() {
    /*
     *   1↔2
     */
    let topology = topo(&[(1, &[2]), (2, &[1])]);

    assert_eq!(topology.next(nid(1)), nids(&[2]));
    assert_eq!(topology.next(nid(2)), nids(&[1]));
}

#[test]
fn two_neighbors() {
    /*
     *   1↔2
     *   ↕ ↕
     *   3↔4
     */
    let topology = topo(&[(1, &[2, 3]), (2, &[1, 4]), (3, &[1, 4]), (4, &[2, 3])]);

    assert_eq!(topology.next(nid(1)), nids(&[3]));
    assert_eq!(topology.next(nid(2)), nids(&[1]));
    assert_eq!(topology.next(nid(3)), nids(&[4]));
    assert_eq!(topology.next(nid(4)), nids(&[2]));
}

#[test]
fn two_neighbors_2() {
    /*
     *   0↔1↔2
     *   ↕ ↕
     *   3↔4
     */
    let topology = topo(&[
        (0, &[1, 3]),
        (1, &[0, 2, 4]),
        (2, &[1]),
        (3, &[0, 4]),
        (4, &[1, 3]),
    ]);

    assert_eq!(topology.next(nid(0)), nids(&[3]));
    assert_eq!(topology.next(nid(1)), nids(&[0, 2]));
    assert_eq!(topology.next(nid(2)), nids(&[1]));
    assert_eq!(topology.next(nid(3)), nids(&[4]));
    assert_eq!(topology.next(nid(4)), nids(&[1]));
}

#[test]
fn three_neighbors() {
    /*
     *   1↔2↔3
     *   ↕ ↕ ↕
     *   4↔5↔6
     */
    let topology = topo(&[
        (1, &[2, 4]),
        (2, &[1, 3, 5]),
        (3, &[2, 6]),
        (4, &[1, 5]),
        (5, &[2, 4, 6]),
        (6, &[3, 5]),
    ]);

    assert_eq!(topology.next(nid(1)), nids(&[4]));
    assert_eq!(topology.next(nid(2)), nids(&[1]));
    assert_eq!(topology.next(nid(3)), nids(&[2]));
    assert_eq!(topology.next(nid(4)), nids(&[5]));
    assert_eq!(topology.next(nid(5)), nids(&[6]));
    assert_eq!(topology.next(nid(6)), nids(&[3]));
}

#[test]
fn four_neighbors() {
    /*
     *   1↔2↔3
     *   ↕ ↕ ↕
     *   4↔5↔6
     *   ↕ ↕ ↕
     *   7↔8↔9
     */
    let topology = topo(&[
        (1, &[2, 4]),
        (2, &[1, 3, 5]),
        (3, &[2, 6]),
        (4, &[1, 5, 7]),
        (5, &[2, 4, 6, 8]),
        (6, &[3, 5, 9]),
        (7, &[4, 8]),
        (8, &[5, 7, 9]),
        (9, &[6, 8]),
    ]);

    assert_eq!(topology.next(nid(1)), nids(&[4]));
    assert_eq!(topology.next(nid(2)), nids(&[1, 3]));
    assert_eq!(topology.next(nid(3)), nids(&[6]));
    assert_eq!(topology.next(nid(4)), nids(&[7]));
    assert_eq!(topology.next(nid(5)), nids(&[2]));
    assert_eq!(topology.next(nid(6)), nids(&[5]));
    assert_eq!(topology.next(nid(7)), nids(&[8]));
    assert_eq!(topology.next(nid(8)), nids(&[9]));
    assert_eq!(topology.next(nid(9)), nids(&[6]));
}

#[test]
fn next_depends_only_on_the_map() {
    // the same adjacency handed over in different orders, with neighbour
    // lists shuffled, selects the same next hops for every node
    let a = topo(&[(1, &[2, 3]), (2, &[1, 4]), (3, &[1, 4]), (4, &[2, 3])]);
    let b = topo(&[(4, &[3, 2]), (2, &[4, 1]), (1, &[3, 2]), (3, &[4, 1])]);
    for n in 1..=4 {
        assert_eq!(a.next(nid(n)), b.next(nid(n)));
    }
}
