use terrain_route::frontier::{precedes, Frontier, Node};
use terrain_route::grid::Vector;

#[test]
fn empty_frontier_gives_nothing() {
    let mut f = Frontier::new();
    assert_eq!(f.len(), 0);
    assert_eq!(f.extract_min(), None);
    assert_eq!(f.len(), 0);
}

#[test]
fn lower_priority_leaves_first() {
    let mut f = Frontier::new();
    f.insert(Node(7, Vector(0, 0)));
    f.insert(Node(3, Vector(9, 9)));
    f.insert(Node(5, Vector(4, 4)));
    assert_eq!(f.extract_min(), Some(Node(3, Vector(9, 9))));
    assert_eq!(f.extract_min(), Some(Node(5, Vector(4, 4))));
    assert_eq!(f.extract_min(), Some(Node(7, Vector(0, 0))));
    assert_eq!(f.extract_min(), None);
}

#[test]
fn ties_break_by_row_then_column() {
    let mut f = Frontier::new();
    f.insert(Node(4, Vector(2, 1)));
    f.insert(Node(4, Vector(1, 7)));
    f.insert(Node(4, Vector(1, 3)));
    f.insert(Node(4, Vector(2, 0)));
    assert_eq!(f.extract_min(), Some(Node(4, Vector(1, 3))));
    assert_eq!(f.extract_min(), Some(Node(4, Vector(1, 7))));
    assert_eq!(f.extract_min(), Some(Node(4, Vector(2, 0))));
    assert_eq!(f.extract_min(), Some(Node(4, Vector(2, 1))));
}

#[test]
fn order_does_not_depend_on_insertion() {
    let items = [Node(2, Vector(3, 3)), Node(2, Vector(0, 5)), Node(1, Vector(8, 8))];
    let mut a = Frontier::new();
    let mut b = Frontier::new();
    for n in items.iter() {
        a.insert(*n);
    }
    for n in items.iter().rev() {
        b.insert(*n);
    }
    for _ in 0..3 {
        assert_eq!(a.extract_min(), b.extract_min());
    }
}

#[test]
fn duplicates_of_a_cell_are_kept() {
    let mut f = Frontier::new();
    f.insert(Node(9, Vector(1, 1)));
    f.insert(Node(6, Vector(1, 1)));
    f.insert(Node(6, Vector(1, 1)));
    assert_eq!(f.len(), 3);
    assert_eq!(f.extract_min(), Some(Node(6, Vector(1, 1))));
    assert_eq!(f.extract_min(), Some(Node(6, Vector(1, 1))));
    assert_eq!(f.extract_min(), Some(Node(9, Vector(1, 1))));
}

#[test]
fn precedes_is_strict() {
    assert!(precedes(&Node(1, Vector(9, 9)), &Node(2, Vector(0, 0))));
    assert!(precedes(&Node(2, Vector(0, 1)), &Node(2, Vector(1, 0))));
    assert!(precedes(&Node(2, Vector(1, 0)), &Node(2, Vector(1, 1))));
    assert!(!precedes(&Node(2, Vector(1, 1)), &Node(2, Vector(1, 1))));
    assert!(!precedes(&Node(3, Vector(0, 0)), &Node(2, Vector(5, 5))));
}
