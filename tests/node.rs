use rand::SeedableRng;
use rand_chacha::ChaCha8Rng;
use takzero::node::{selectable_children, Node};

fn leaf(stats: i32, visits: u32) -> Node<char, i32> {
    Node { visit_count: visits, stats, children: Vec::new() }
}

fn sample_tree() -> Node<char, i32> {
    let b = Node {
        visit_count: 3,
        stats: 20,
        children: vec![('x', leaf(21, 1)), ('y', leaf(22, 1))],
    };
    Node {
        visit_count: 6,
        stats: 0,
        children: vec![('a', leaf(10, 2)), ('b', b), ('c', leaf(30, 0))],
    }
}

fn size(node: &Node<char, i32>) -> usize {
    1 + node.children.iter().map(|(_, c)| size(c)).sum::<usize>()
}

#[test]
fn fresh_leaf_needs_initialization() {
    let node: Node<char, i32> = Node::leaf(7);
    assert!(node.needs_initialization());
    assert_eq!(node.visit_count, 0);
    assert_eq!(node.stats, 7);
    assert!(node.children.is_empty());
    assert!(!sample_tree().needs_initialization());
}

#[test]
fn descend_promotes_child_and_drops_siblings() {
    let mut root = sample_tree();
    root.descend(&'b');
    assert_eq!(root.visit_count, 3);
    assert_eq!(root.stats, 20);
    assert_eq!(root.children.len(), 2);
    assert_eq!(root.children[0].0, 'x');
    assert_eq!(root.children[1].0, 'y');
    assert_eq!(size(&root), 3);
}

#[test]
fn descend_into_leaf() {
    let mut root = sample_tree();
    root.descend(&'c');
    assert_eq!(root.stats, 30);
    assert!(root.needs_initialization());
    assert_eq!(size(&root), 1);
}

#[test]
fn child_index_finds_first_match() {
    let root = sample_tree();
    assert_eq!(root.child_index(&'a'), Some(0));
    assert_eq!(root.child_index(&'c'), Some(2));
    assert_eq!(root.child_index(&'z'), None);
}

#[test]
fn most_visited_count_and_best_action() {
    let root = sample_tree();
    assert_eq!(root.most_visited_count(), 3);
    assert_eq!(*root.select_best_action(), 'b');
    assert_eq!(root.most_visited_index(), 1);
    assert_eq!(leaf(0, 0).most_visited_count(), 0);
}

#[test]
fn best_action_tie_takes_first() {
    let root = Node {
        visit_count: 5,
        stats: 0,
        children: vec![('p', leaf(0, 1)), ('q', leaf(0, 2)), ('r', leaf(0, 2))],
    };
    assert_eq!(*root.select_best_action(), 'q');
}

#[test]
fn child_visits_in_order() {
    assert_eq!(sample_tree().child_visits(), vec![2, 3, 0]);
}

#[test]
fn sample_by_visits_skips_unvisited() {
    let root = sample_tree();
    let mut rng = ChaCha8Rng::seed_from_u64(5);
    for _ in 0..200 {
        let i = root.sample_by_visits(&mut rng);
        assert!(i < 2, "child {i} has no visits");
    }
}

#[test]
fn sample_by_visits_is_deterministic_under_seed() {
    let root = sample_tree();
    let mut a = ChaCha8Rng::seed_from_u64(1234);
    let mut b = ChaCha8Rng::seed_from_u64(1234);
    let xs: Vec<usize> = (0..50).map(|_| root.sample_by_visits(&mut a)).collect();
    let ys: Vec<usize> = (0..50).map(|_| root.sample_by_visits(&mut b)).collect();
    assert_eq!(xs, ys);
}

#[test]
fn winning_child_is_never_excluded() {
    // The second child is lost for its own mover, i.e. a winning move here;
    // only the first child, a proven win for the opponent, is excluded.
    let proven_win = vec![true, false, false];
    assert_eq!(selectable_children(&proven_win), vec![1, 2]);
}

#[test]
fn selectable_children_edge_cases() {
    assert_eq!(selectable_children(&vec![]), Vec::<usize>::new());
    assert_eq!(selectable_children(&vec![true, true]), Vec::<usize>::new());
    assert_eq!(selectable_children(&vec![false, true, false]), vec![0, 2]);
}

#[test]
fn expand_fresh_node() {
    let mut node: Node<char, i32> = Node::leaf(5);
    node.expand(vec![('a', 1), ('b', 2), ('c', 3)]);
    assert_eq!(node.visit_count, 1);
    assert_eq!(node.stats, 5);
    let actions: Vec<char> = node.children.iter().map(|(a, _)| *a).collect();
    assert_eq!(actions, vec!['a', 'b', 'c']);
    let stats: Vec<i32> = node.children.iter().map(|(_, c)| c.stats).collect();
    assert_eq!(stats, vec![1, 2, 3]);
    assert!(node.children.iter().all(|(_, c)| c.needs_initialization()));
    assert!(!node.needs_initialization());
}
