use lottify::lottie::{Group, GroupItem, Lottie, Stroke};
use lottify::shape::{MeshShape, PathCmd, Shape};

#[test]
fn stroke_collects_points() {
    let mut s = Stroke::new();
    assert!(s.items.is_empty());
    s.add([1, 2]);
    s.add([3, 4]);
    assert_eq!(s.items, vec![[1, 2], [3, 4]]);
}

#[test]
fn group_collects_items() {
    let mut g: Group<u8> = Group::new("g".to_string());
    assert_eq!(g.name, "g");
    g.add(GroupItem::Fill(3));
    assert_eq!(g.items.len(), 1);
    assert!(matches!(g.items[0], GroupItem::Fill(3)));
}

#[test]
fn new_lottie_is_empty() {
    let l: Lottie<u8> = Lottie::new(30);
    assert_eq!(l.framerate, 30);
    assert!(l.layers.is_empty());
}

#[test]
fn add_layer_makes_a_group_per_outline() {
    let mut l: Lottie<char> = Lottie::new(30);
    let first = MeshShape::new(
        Shape::new(vec![
            PathCmd::MoveTo([1, 1]),
            PathCmd::LineTo([2, 2]),
            PathCmd::ClosePath,
            PathCmd::MoveTo([3, 3]),
            PathCmd::LineTo([4, 4]),
            PathCmd::LineTo([5, 5]),
            PathCmd::ClosePath,
            PathCmd::MoveTo([9, 9]),
        ]),
        'r',
        0u8,
    );
    let second = MeshShape::new(Shape::new(vec![]), 'g', 1u8);
    l.add_layer(vec![first, second], "frame0", 0, 1);
    l.add_layer(Vec::<MeshShape<char, u8>>::new(), "frame1", 1, 2);
    assert_eq!(l.layers.len(), 2);
    let layer = &l.layers[0];
    assert_eq!(layer.name, "frame0");
    assert_eq!((layer.ip, layer.op), (0, 1));
    assert_eq!(layer.shapes.len(), 2);
    let g = &layer.shapes[0];
    assert_eq!(g.name, "group");
    assert_eq!(g.items.len(), 3);
    match &g.items[0] {
        GroupItem::Stroke(s) => assert_eq!(s.items, vec![[1, 1], [2, 2]]),
        GroupItem::Fill(_) => panic!("expected a stroke"),
    }
    match &g.items[1] {
        GroupItem::Stroke(s) => assert_eq!(s.items, vec![[3, 3], [4, 4], [5, 5]]),
        GroupItem::Fill(_) => panic!("expected a stroke"),
    }
    assert!(matches!(g.items[2], GroupItem::Fill('r')));
    let g2 = &layer.shapes[1];
    assert_eq!(g2.items.len(), 1);
    assert!(matches!(g2.items[0], GroupItem::Fill('g')));
    assert_eq!(l.layers[1].name, "frame1");
    assert!(l.layers[1].shapes.is_empty());
}
