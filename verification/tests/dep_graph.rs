use nix_cache_mirror::database::model::{StorePath, StorePathHash};
use nix_cache_mirror::update::dep_graph::DepGraph;
use std::convert::TryFrom;

fn hash(letter: char) -> StorePathHash {
    let hash: String = std::iter::repeat(letter).take(32).collect();
    StorePath::try_from(format!("/nix/store/{}-x", hash))
        .unwrap()
        .hash()
}

fn place(order: &[StorePathHash], h: StorePathHash) -> usize {
    order.iter().position(|x| *x == h).unwrap()
}

#[test]
fn topo_sort_puts_sources_first() {
    let (a, b, c, d) = (hash('a'), hash('b'), hash('c'), hash('d'));
    let mut g = DepGraph::new();
    for h in [d, b, a, c] {
        g.add_node(h);
    }
    g.add_dep(a, b);
    g.add_dep(a, c);
    g.add_dep(b, d);
    g.add_dep(c, d);
    // An edge that is recorded twice counts twice.
    g.add_dep(a, b);
    assert_eq!(g.len(), 4);
    assert_eq!(g.position(&a), Some(2));
    assert_eq!(g.position(&hash('f')), None);
    assert_eq!(g.node(0), d);
    let order = g.topo_sort();
    assert_eq!(order.len(), 4);
    assert_eq!(place(&order, a), 0);
    assert_eq!(place(&order, d), 3);
    assert!(place(&order, a) < place(&order, b));
    assert!(place(&order, a) < place(&order, c));
    assert!(place(&order, b) < place(&order, d));
    assert!(place(&order, c) < place(&order, d));
}

#[test]
fn topo_sort_of_nothing_and_of_loose_nodes() {
    assert!(DepGraph::new().topo_sort().is_empty());
    let mut g = DepGraph::new();
    g.add_node(hash('a'));
    g.add_node(hash('b'));
    assert_eq!(g.topo_order(), vec![0, 1]);
    assert_eq!(g.topo_sort(), vec![hash('a'), hash('b')]);
}

#[test]
fn topo_sort_leaves_out_a_cycle_and_what_lies_behind_it() {
    let (a, b, c, d) = (hash('a'), hash('b'), hash('c'), hash('d'));
    let mut g = DepGraph::new();
    for h in [a, b, c, d] {
        g.add_node(h);
    }
    g.add_dep(a, b);
    g.add_dep(b, c);
    g.add_dep(c, b);
    g.add_dep(c, d);
    assert_eq!(g.topo_sort(), vec![a]);

    let mut g = DepGraph::new();
    g.add_node(a);
    g.add_dep(a, a);
    assert!(g.topo_sort().is_empty());
}
