use introspector::{
    Element, Frame, FrameItem, GroupItem, Introspector, Label, Location, Meta, Numbering, Point,
    Position, Selector, Transform,
};

fn at(n: u128) -> Location {
    Location { hash: n }
}

fn marker(x: i64, y: i64, n: u128) -> (Point, FrameItem) {
    (Point { x, y }, FrameItem::Meta(Meta::Elem(Element::new(at(n), 0))))
}

fn group(x: i64, y: i64, transform: Transform, items: Vec<(Point, FrameItem)>) -> (Point, FrameItem) {
    (Point { x, y }, FrameItem::Group(GroupItem { frame: Frame::new(items), transform }))
}

fn numbering(value: Option<u64>) -> (Point, FrameItem) {
    (
        Point { x: 0, y: 0 },
        FrameItem::Meta(Meta::PageNumbering(value.map(|id| Numbering { id }))),
    )
}

fn quarter_turn() -> Transform {
    Transform { sx: 0, ky: 1, kx: -1, sy: 0, tx: 0, ty: 0 }
}

fn scale(factor: i64) -> Transform {
    Transform { sx: factor, ky: 0, kx: 0, sy: factor, tx: 0, ty: 0 }
}

#[test]
fn unknown_location_resolves_to_the_origin_of_page_one() {
    let index = Introspector::new(&[Frame::new(vec![marker(5, 6, 1)])]);
    assert_eq!(index.position(at(99)), Position { page: 1, point: Point { x: 0, y: 0 } });
    assert_eq!(index.page(at(99)), 1);
    assert_eq!(index.page_numbering(at(99)), None);
}

#[test]
fn unknown_location_in_an_empty_index() {
    let index = Introspector::new(&[]);
    assert_eq!(index.position(at(1)), Position { page: 1, point: Point { x: 0, y: 0 } });
    assert_eq!(index.page(at(1)), 1);
    assert_eq!(index.page_numbering(at(1)), None);
    assert_eq!(index.len(), 0);
}

#[test]
fn pages_has_a_floor_of_one() {
    assert_eq!(Introspector::new(&[]).pages(), 1);
    assert_eq!(Introspector::default().pages(), 1);
    assert_eq!(Introspector::new(&[Frame::new(vec![])]).pages(), 1);
    assert_eq!(Introspector::new(&[Frame::new(vec![]), Frame::new(vec![])]).pages(), 2);
}

#[test]
fn element_on_a_page_keeps_its_point() {
    let index = Introspector::new(&[Frame::new(vec![]), Frame::new(vec![marker(5, -6, 1)])]);
    assert_eq!(index.position(at(1)), Position { page: 2, point: Point { x: 5, y: -6 } });
}

#[test]
fn element_in_a_group_is_moved_by_the_group() {
    let inner = vec![marker(1, 2, 1)];
    let index = Introspector::new(&[Frame::new(vec![group(10, 20, Transform::identity(), inner)])]);
    assert_eq!(index.position(at(1)), Position { page: 1, point: Point { x: 11, y: 22 } });
}

#[test]
fn nested_transforms_compose_from_the_inside_out() {
    // The element stands at (1, 2) in a group that is turned by a quarter
    // and stands at (3, 4) in a group that is doubled and stands at (10, 20).
    // Turned: (-2, 1). Moved: (1, 5). Doubled: (2, 10). Moved: (12, 30).
    let innermost = vec![marker(1, 2, 1)];
    let inner = vec![group(3, 4, quarter_turn(), innermost)];
    let page = Frame::new(vec![group(10, 20, scale(2), inner)]);
    let index = Introspector::new(&[page]);
    assert_eq!(index.position(at(1)), Position { page: 1, point: Point { x: 12, y: 30 } });
}

#[test]
fn nested_transforms_with_the_turn_outside() {
    // Doubled: (2, 4). Moved by (3, 4): (5, 8). Turned: (-8, 5). Moved by
    // (10, 20): (2, 25).
    let innermost = vec![marker(1, 2, 1)];
    let inner = vec![group(3, 4, scale(2), innermost)];
    let page = Frame::new(vec![group(10, 20, quarter_turn(), inner)]);
    let index = Introspector::new(&[page]);
    assert_eq!(index.position(at(1)), Position { page: 1, point: Point { x: 2, y: 25 } });
}

#[test]
fn group_transform_does_not_leak_to_later_items() {
    let page = Frame::new(vec![
        group(10, 20, scale(3), vec![marker(1, 1, 1)]),
        marker(7, 8, 2),
    ]);
    let index = Introspector::new(&[page]);
    assert_eq!(index.position(at(1)).point, Point { x: 13, y: 23 });
    assert_eq!(index.position(at(2)).point, Point { x: 7, y: 8 });
}

#[test]
fn walk_is_depth_first_and_page_by_page() {
    let first = Frame::new(vec![
        marker(0, 0, 10),
        group(0, 0, Transform::identity(), vec![
            marker(0, 0, 11),
            group(0, 0, Transform::identity(), vec![marker(0, 0, 12)]),
            marker(0, 0, 13),
        ]),
        (Point { x: 0, y: 0 }, FrameItem::Other),
        (Point { x: 0, y: 0 }, FrameItem::Meta(Meta::Hide)),
        marker(0, 0, 14),
    ]);
    let second = Frame::new(vec![marker(0, 0, 5)]);
    let index = Introspector::new(&[first, second]);
    let order: Vec<u128> = index.all().iter().map(|e| e.location.hash).collect();
    assert_eq!(order, vec![10, 11, 12, 13, 14, 5]);
    assert_eq!(index.page(at(12)), 1);
    assert_eq!(index.page(at(5)), 2);
}

#[test]
fn page_numbering_is_that_of_the_elements_page() {
    let first = Frame::new(vec![numbering(Some(4)), marker(0, 0, 1)]);
    let second = Frame::new(vec![numbering(None), marker(0, 0, 2)]);
    let third = Frame::new(vec![numbering(Some(6)), marker(0, 0, 3)]);
    let fourth = Frame::new(vec![marker(0, 0, 4)]);
    let index = Introspector::new(&[first, second, third, fourth]);
    assert_eq!(index.page_numbering(at(1)), Some(Numbering { id: 4 }));
    assert_eq!(index.page_numbering(at(2)), None);
    assert_eq!(index.page_numbering(at(3)), Some(Numbering { id: 6 }));
    assert_eq!(index.page_numbering(at(4)), None);
}

#[test]
fn page_without_a_numbering_does_not_shift_later_pages() {
    let first = Frame::new(vec![marker(0, 0, 1)]);
    let second = Frame::new(vec![marker(0, 0, 2), numbering(Some(5))]);
    let third = Frame::new(vec![marker(0, 0, 3)]);
    let index = Introspector::new(&[first, second, third]);
    assert_eq!(index.page_numbering(at(1)), None);
    assert_eq!(index.page_numbering(at(2)), Some(Numbering { id: 5 }));
    assert_eq!(index.page_numbering(at(3)), None);
}

#[test]
fn last_numbering_met_on_a_page_stands_for_it() {
    let first = Frame::new(vec![numbering(Some(1)), marker(0, 0, 1), numbering(Some(2))]);
    let second = Frame::new(vec![numbering(Some(3)), marker(0, 0, 2), numbering(None)]);
    let index = Introspector::new(&[first, second]);
    assert_eq!(index.page_numbering(at(1)), Some(Numbering { id: 2 }));
    assert_eq!(index.page_numbering(at(2)), None);
}

#[test]
fn page_numbering_in_a_group_is_recorded_too() {
    let page = Frame::new(vec![
        group(0, 0, Transform::identity(), vec![numbering(Some(8))]),
        marker(0, 0, 1),
    ]);
    let index = Introspector::new(&[page]);
    assert_eq!(index.page_numbering(at(1)), Some(Numbering { id: 8 }));
}

#[test]
fn duplicate_location_cannot_be_indexed() {
    let page = Frame::new(vec![marker(0, 0, 1), marker(1, 1, 1)]);
    assert!(Introspector::try_new(&[page]).is_none());
}

#[test]
fn duplicate_location_across_pages_and_groups_cannot_be_indexed() {
    let first = Frame::new(vec![marker(0, 0, 1)]);
    let second = Frame::new(vec![group(0, 0, Transform::identity(), vec![marker(0, 0, 1)])]);
    assert!(Introspector::try_with_capacity(&[first, second], 4).is_none());
}

#[test]
fn distinct_locations_can_be_indexed() {
    let page = Frame::new(vec![marker(0, 0, 1), marker(1, 1, 2)]);
    let index = Introspector::try_new(&[page]).unwrap();
    assert_eq!(index.len(), 2);
    assert_eq!(index.position(at(2)).point, Point { x: 1, y: 1 });
}

#[test]
fn walk_that_leaves_the_machine_range_cannot_be_indexed() {
    let far = group(i64::MAX, 0, Transform::identity(), vec![marker(1, 0, 1)]);
    assert!(Introspector::try_new(&[Frame::new(vec![far])]).is_none());
    let grown = group(0, 0, scale(i64::MAX), vec![group(0, 0, scale(2), vec![])]);
    assert!(Introspector::try_new(&[Frame::new(vec![grown])]).is_none());
}

#[test]
fn walk_at_the_edge_of_the_machine_range_can_be_indexed() {
    let far = group(i64::MAX - 1, i64::MIN + 1, Transform::identity(), vec![marker(1, -1, 1)]);
    let index = Introspector::try_new(&[Frame::new(vec![far])]).unwrap();
    assert_eq!(index.position(at(1)).point, Point { x: i64::MAX, y: i64::MIN });
}

#[test]
fn with_capacity_builds_the_same_index() {
    let pages = || vec![Frame::new(vec![marker(1, 2, 1), marker(3, 4, 2)])];
    let plain = Introspector::new(&pages());
    let roomy = Introspector::with_capacity(&pages(), 64);
    assert_eq!(plain.all(), roomy.all());
    assert_eq!(plain.position(at(2)), roomy.position(at(2)));
}

#[test]
fn capacity_is_only_a_hint() {
    let pages = || vec![Frame::new(vec![marker(1, 2, 1), marker(3, 4, 2)])];
    let none = Introspector::with_capacity(&pages(), 0);
    let huge = Introspector::with_capacity(&pages(), usize::MAX);
    assert_eq!(none.all(), huge.all());
    assert_eq!(huge.len(), 2);
}

#[test]
fn labels_are_found_after_building() {
    let page = Frame::new(vec![
        (
            Point { x: 0, y: 0 },
            FrameItem::Meta(Meta::Elem(Element::new(at(1), 0).with_label(Label { id: 3 }))),
        ),
        group(0, 0, Transform::identity(), vec![(
            Point { x: 0, y: 0 },
            FrameItem::Meta(Meta::Elem(Element::new(at(2), 0).with_label(Label { id: 3 }))),
        )]),
        marker(0, 0, 3),
    ]);
    let mut index = Introspector::new(&[page]);
    let found = index.query(&Selector::Label(Label { id: 3 }));
    assert_eq!(found.len(), 2);
    assert_eq!(found[0].location, at(1));
    assert_eq!(found[1].location, at(2));
    assert_eq!(found[0].label(), Some(Label { id: 3 }));
}

#[test]
fn pre_concat_applies_the_earlier_transform_first() {
    let turn = quarter_turn();
    let shift = Transform::translate(10, 20);
    // First the turn, then the shift.
    let both = shift.pre_concat(turn).unwrap();
    assert_eq!(both, Transform { sx: 0, ky: 1, kx: -1, sy: 0, tx: 10, ty: 20 });
    assert_eq!(Point { x: 1, y: 2 }.transform(both), Some(Point { x: 8, y: 21 }));
    // First the shift, then the turn.
    let other = turn.pre_concat(shift).unwrap();
    assert_eq!(other, Transform { sx: 0, ky: 1, kx: -1, sy: 0, tx: -20, ty: 10 });
    assert_eq!(Point { x: 1, y: 2 }.transform(other), Some(Point { x: -22, y: 11 }));
}

#[test]
fn pre_concat_multiplies_the_matrices() {
    let a = Transform { sx: 1, ky: 2, kx: 3, sy: 4, tx: 5, ty: 6 };
    let b = Transform { sx: 7, ky: 8, kx: 9, sy: 10, tx: 11, ty: 12 };
    assert_eq!(
        a.pre_concat(b),
        Some(Transform { sx: 31, ky: 46, kx: 39, sy: 58, tx: 52, ty: 76 })
    );
}

#[test]
fn transform_applies_the_affine_map() {
    let t = Transform { sx: 2, ky: 3, kx: 5, sy: 7, tx: 11, ty: 13 };
    assert_eq!(Point { x: 1, y: 1 }.transform(t), Some(Point { x: 18, y: 23 }));
    assert_eq!(Point { x: -4, y: 9 }.transform(t), Some(Point { x: 48, y: 64 }));
    assert_eq!(Point::zero().transform(t), Some(Point { x: 11, y: 13 }));
    assert_eq!(Point { x: 3, y: 4 }.transform(Transform::identity()), Some(Point { x: 3, y: 4 }));
}

#[test]
fn transform_out_of_range_is_none() {
    let double = scale(2);
    assert_eq!(Point { x: i64::MAX, y: 0 }.transform(double), None);
    assert_eq!(Point { x: 0, y: i64::MIN }.transform(double), None);
    assert_eq!(Point { x: i64::MAX, y: 0 }.transform(Transform::translate(1, 0)), None);
    assert_eq!(
        Point { x: i64::MAX, y: 0 }.transform(Transform::translate(-1, 0)),
        Some(Point { x: i64::MAX - 1, y: 0 })
    );
    assert_eq!(scale(i64::MAX).pre_concat(double), None);
    assert_eq!(Transform::translate(i64::MAX, 0).pre_concat(Transform::translate(1, 0)), None);
}

#[test]
fn transform_with_extreme_factors_cancels_exactly() {
    // MIN * MIN and MIN * MAX are far out of range, but their sum with the
    // offset is not: MIN * MIN + MIN * MAX = 2^63, and 2^63 + MIN = 0.
    let t = Transform { sx: i64::MIN, ky: 0, kx: i64::MIN, sy: 0, tx: i64::MIN, ty: 0 };
    assert_eq!(Point { x: i64::MIN, y: i64::MAX }.transform(t), Some(Point { x: 0, y: 0 }));
    // MIN * MIN + MIN * MIN = 2^127 is beyond even the wide range.
    assert_eq!(Point { x: i64::MIN, y: i64::MIN }.transform(t), None);
}
