use introspector::{
    Element, Frame, FrameItem, Introspector, Label, LabelError, Location, Meta, Point, Selector,
};

const HEADING: u64 = 1;
const FIGURE: u64 = 2;
const TEXT: u64 = 3;

fn loc(n: u128) -> Location {
    Location { hash: n }
}

fn elem_item(elem: Element) -> (Point, FrameItem) {
    (Point { x: 0, y: 0 }, FrameItem::Meta(Meta::Elem(elem)))
}

fn page_of(elems: Vec<Element>) -> Frame {
    Frame::new(elems.into_iter().map(elem_item).collect())
}

fn locations(list: &[Element]) -> Vec<u128> {
    list.iter().map(|e| e.location.hash).collect()
}

fn everything() -> Selector {
    Selector::Can(0)
}

fn three_pages() -> Introspector {
    let intro = Label { id: 7 };
    let frames = vec![
        page_of(vec![Element::new(loc(1), HEADING).with_label(intro)]),
        page_of(vec![Element::new(loc(2), FIGURE)]),
        page_of(vec![Element::new(loc(3), HEADING).with_label(intro)]),
    ];
    Introspector::new(&frames)
}

/// Ten elements on one page: kinds alternate, every third carries label 1,
/// and capabilities are the low bits of the location.
fn ten_elements() -> Introspector {
    let mut elems = Vec::new();
    for n in 0..10u128 {
        let kind = if n % 2 == 0 { HEADING } else { FIGURE };
        let mut elem = Element::new(loc(100 + n), kind).with_capabilities((n % 4) as u64);
        if n % 3 == 0 {
            elem = elem.with_label(Label { id: 1 });
        }
        elems.push(elem);
    }
    Introspector::new(&[page_of(elems)])
}

#[test]
fn scenario_three_pages_label_is_ambiguous() {
    let index = three_pages();
    assert_eq!(index.query_label(Label { id: 7 }), Err(LabelError::Ambiguous(Label { id: 7 })));
}

#[test]
fn scenario_three_pages_label_query_lists_both() {
    let mut index = three_pages();
    let found = index.query(&Selector::Label(Label { id: 7 }));
    assert_eq!(locations(&found), vec![1, 3]);
}

#[test]
fn scenario_three_pages_before_second_exclusive() {
    let mut index = three_pages();
    let selector = Selector::Before {
        selector: Box::new(everything()),
        end: Box::new(Selector::Location(loc(2))),
        inclusive: false,
    };
    assert_eq!(locations(&index.query(&selector)), vec![1]);
}

#[test]
fn scenario_three_pages_after_second_inclusive() {
    let mut index = three_pages();
    let selector = Selector::After {
        selector: Box::new(everything()),
        start: Box::new(Selector::Location(loc(2))),
        inclusive: true,
    };
    assert_eq!(locations(&index.query(&selector)), vec![2, 3]);
}

#[test]
fn scenario_three_pages_pages_and_positions() {
    let index = three_pages();
    assert_eq!(index.pages(), 3);
    assert_eq!(index.len(), 3);
    assert_eq!(index.page(loc(1)), 1);
    assert_eq!(index.page(loc(2)), 2);
    assert_eq!(index.page(loc(3)), 3);
}

#[test]
fn answers_rise_in_document_order() {
    let mut index = ten_elements();
    let selectors = vec![
        everything(),
        Selector::Elem(HEADING),
        Selector::Elem(FIGURE),
        Selector::Label(Label { id: 1 }),
        Selector::Can(1),
        Selector::Or(vec![Selector::Elem(FIGURE), Selector::Label(Label { id: 1 })]),
        Selector::Or(vec![Selector::Label(Label { id: 1 }), Selector::Elem(FIGURE)]),
        Selector::And(vec![Selector::Elem(HEADING), Selector::Label(Label { id: 1 })]),
    ];
    for selector in &selectors {
        let found = locations(&index.query(selector));
        for pair in found.windows(2) {
            assert!(pair[0] < pair[1]);
        }
    }
}

#[test]
fn query_is_idempotent() {
    let mut index = ten_elements();
    let selector = Selector::Or(vec![
        Selector::Elem(FIGURE),
        Selector::And(vec![Selector::Elem(HEADING), Selector::Label(Label { id: 1 })]),
    ]);
    let first = index.query(&selector);
    let second = index.query(&selector);
    let third = index.query(&selector.duplicate());
    assert_eq!(first, second);
    assert_eq!(first, third);
    assert_eq!(locations(&first), vec![100, 101, 103, 105, 106, 107, 109]);
}

#[test]
fn query_after_a_different_query_is_not_confused() {
    let mut index = ten_elements();
    let headings = index.query(&Selector::Elem(HEADING));
    let figures = index.query(&Selector::Elem(FIGURE));
    let headings_again = index.query(&Selector::Elem(HEADING));
    assert_eq!(locations(&headings), vec![100, 102, 104, 106, 108]);
    assert_eq!(locations(&figures), vec![101, 103, 105, 107, 109]);
    assert_eq!(headings, headings_again);
}

#[test]
fn before_inclusive_keeps_up_to_the_boundary() {
    let mut index = ten_elements();
    let selector = Selector::Before {
        selector: Box::new(everything()),
        end: Box::new(Selector::Location(loc(104))),
        inclusive: true,
    };
    assert_eq!(locations(&index.query(&selector)), vec![100, 101, 102, 103, 104]);
}

#[test]
fn before_exclusive_stops_short_of_the_boundary() {
    let mut index = ten_elements();
    let selector = Selector::Before {
        selector: Box::new(everything()),
        end: Box::new(Selector::Location(loc(104))),
        inclusive: false,
    };
    assert_eq!(locations(&index.query(&selector)), vec![100, 101, 102, 103]);
}

#[test]
fn after_inclusive_starts_at_the_boundary() {
    let mut index = ten_elements();
    let selector = Selector::After {
        selector: Box::new(everything()),
        start: Box::new(Selector::Location(loc(104))),
        inclusive: true,
    };
    assert_eq!(locations(&index.query(&selector)), vec![104, 105, 106, 107, 108, 109]);
}

#[test]
fn after_exclusive_starts_behind_the_boundary() {
    let mut index = ten_elements();
    let selector = Selector::After {
        selector: Box::new(everything()),
        start: Box::new(Selector::Location(loc(104))),
        inclusive: false,
    };
    assert_eq!(locations(&index.query(&selector)), vec![105, 106, 107, 108, 109]);
}

#[test]
fn range_at_the_first_and_last_element() {
    let mut index = ten_elements();
    let before_first = Selector::Before {
        selector: Box::new(everything()),
        end: Box::new(Selector::Location(loc(100))),
        inclusive: false,
    };
    let after_last = Selector::After {
        selector: Box::new(everything()),
        start: Box::new(Selector::Location(loc(109))),
        inclusive: false,
    };
    let after_last_inclusive = Selector::After {
        selector: Box::new(everything()),
        start: Box::new(Selector::Location(loc(109))),
        inclusive: true,
    };
    assert_eq!(locations(&index.query(&before_first)), Vec::<u128>::new());
    assert_eq!(locations(&index.query(&after_last)), Vec::<u128>::new());
    assert_eq!(locations(&index.query(&after_last_inclusive)), vec![109]);
}

#[test]
fn range_with_a_boundary_outside_the_list_cuts_at_its_place() {
    let mut index = ten_elements();
    // The boundary, element 104, is a heading and so not among the figures:
    // inclusivity makes no difference.
    for inclusive in [false, true] {
        let before = Selector::Before {
            selector: Box::new(Selector::Elem(FIGURE)),
            end: Box::new(Selector::Location(loc(104))),
            inclusive,
        };
        let after = Selector::After {
            selector: Box::new(Selector::Elem(FIGURE)),
            start: Box::new(Selector::Location(loc(104))),
            inclusive,
        };
        assert_eq!(locations(&index.query(&before)), vec![101, 103]);
        assert_eq!(locations(&index.query(&after)), vec![105, 107, 109]);
    }
}

#[test]
fn range_without_a_boundary_keeps_the_whole_list() {
    let mut index = ten_elements();
    let before = Selector::Before {
        selector: Box::new(Selector::Elem(FIGURE)),
        end: Box::new(Selector::Location(loc(999))),
        inclusive: false,
    };
    let after = Selector::After {
        selector: Box::new(Selector::Elem(FIGURE)),
        start: Box::new(Selector::Label(Label { id: 55 })),
        inclusive: true,
    };
    assert_eq!(locations(&index.query(&before)), vec![101, 103, 105, 107, 109]);
    assert_eq!(locations(&index.query(&after)), vec![101, 103, 105, 107, 109]);
}

#[test]
fn range_takes_the_first_element_of_the_boundary_query() {
    let mut index = ten_elements();
    // Label 1 is carried by 100, 103, 106, 109; figures start at 101.
    let after = Selector::After {
        selector: Box::new(everything()),
        start: Box::new(Selector::Elem(FIGURE)),
        inclusive: false,
    };
    let before = Selector::Before {
        selector: Box::new(Selector::Label(Label { id: 1 })),
        end: Box::new(Selector::Elem(FIGURE)),
        inclusive: true,
    };
    assert_eq!(
        locations(&index.query(&after)),
        vec![102, 103, 104, 105, 106, 107, 108, 109]
    );
    assert_eq!(locations(&index.query(&before)), vec![100]);
}

#[test]
fn and_commutes() {
    let mut index = ten_elements();
    let a = || Selector::Elem(HEADING);
    let b = || Selector::Label(Label { id: 1 });
    let ab = index.query(&Selector::And(vec![a(), b()]));
    let ba = index.query(&Selector::And(vec![b(), a()]));
    assert_eq!(ab, ba);
    assert_eq!(locations(&ab), vec![100, 106]);
}

#[test]
fn and_of_three_keeps_the_common_elements() {
    let mut index = ten_elements();
    let selector = Selector::And(vec![
        everything(),
        Selector::Label(Label { id: 1 }),
        Selector::Can(1),
    ]);
    // Label 1: 100, 103, 106, 109; capability bit 0: locations with n % 4 in {1, 3}.
    assert_eq!(locations(&index.query(&selector)), vec![103, 109]);
}

#[test]
fn and_with_an_empty_part_is_empty() {
    let mut index = ten_elements();
    let selector = Selector::And(vec![everything(), Selector::Elem(TEXT)]);
    assert_eq!(index.query(&selector).len(), 0);
}

#[test]
fn and_over_nothing_is_empty() {
    let mut index = ten_elements();
    assert_eq!(index.query(&Selector::And(vec![])).len(), 0);
}

#[test]
fn or_over_nothing_is_empty() {
    let mut index = ten_elements();
    assert_eq!(index.query(&Selector::Or(vec![])).len(), 0);
}

#[test]
fn or_lists_a_shared_element_once() {
    let mut index = ten_elements();
    let selector = Selector::Or(vec![Selector::Elem(HEADING), Selector::Label(Label { id: 1 })]);
    let found = locations(&index.query(&selector));
    // 100 and 106 are headings that carry the label.
    assert_eq!(found, vec![100, 102, 103, 104, 106, 108, 109]);
    assert_eq!(found.iter().filter(|&&l| l == 100).count(), 1);
    assert_eq!(found.iter().filter(|&&l| l == 106).count(), 1);
}

#[test]
fn or_does_not_depend_on_the_order_of_its_parts() {
    let mut index = ten_elements();
    let one = index.query(&Selector::Or(vec![
        Selector::Location(loc(108)),
        Selector::Location(loc(101)),
        Selector::Label(Label { id: 1 }),
    ]));
    let other = index.query(&Selector::Or(vec![
        Selector::Label(Label { id: 1 }),
        Selector::Location(loc(101)),
        Selector::Location(loc(108)),
    ]));
    assert_eq!(one, other);
    assert_eq!(locations(&one), vec![100, 101, 103, 106, 108, 109]);
}

#[test]
fn query_label_without_a_match_is_missing() {
    let index = ten_elements();
    assert_eq!(index.query_label(Label { id: 2 }), Err(LabelError::Missing(Label { id: 2 })));
}

#[test]
fn query_label_with_one_match_is_that_element() {
    let elems = vec![
        Element::new(loc(1), HEADING),
        Element::new(loc(2), FIGURE).with_label(Label { id: 9 }),
        Element::new(loc(3), HEADING).with_label(Label { id: 4 }),
    ];
    let index = Introspector::new(&[page_of(elems)]);
    let found = index.query_label(Label { id: 9 }).unwrap();
    assert_eq!(found.location, loc(2));
    assert_eq!(found.kind, FIGURE);
    assert_eq!(index.query_label(Label { id: 4 }).unwrap().location, loc(3));
}

#[test]
fn query_label_with_two_matches_is_ambiguous() {
    let index = ten_elements();
    assert_eq!(index.query_label(Label { id: 1 }), Err(LabelError::Ambiguous(Label { id: 1 })));
}

#[test]
fn message_for_a_missing_label_names_it() {
    let error = LabelError::Missing(Label { id: 7 });
    assert_eq!(error.label(), Label { id: 7 });
    assert_eq!(error.message("intro").as_str(), "label `intro` does not exist in the document");
}

#[test]
fn message_for_an_ambiguous_label_names_it() {
    let error = LabelError::Ambiguous(Label { id: 7 });
    assert_eq!(error.label(), Label { id: 7 });
    assert_eq!(
        error.message("intro").as_str(),
        "label `intro` occurs multiple times in the document"
    );
}

#[test]
fn label_query_for_an_unused_label_is_empty() {
    let mut index = ten_elements();
    assert_eq!(index.query(&Selector::Label(Label { id: 2 })).len(), 0);
}

#[test]
fn location_query_finds_one_or_none() {
    let mut index = ten_elements();
    assert_eq!(locations(&index.query(&Selector::Location(loc(105)))), vec![105]);
    assert_eq!(index.query(&Selector::Location(loc(5))).len(), 0);
}

#[test]
fn query_first_is_the_first_of_the_query() {
    let mut index = ten_elements();
    assert_eq!(index.query_first(&Selector::Elem(FIGURE)).unwrap().location, loc(101));
    assert_eq!(index.query_first(&Selector::Location(loc(107))).unwrap().location, loc(107));
    assert_eq!(index.query_first(&Selector::Location(loc(7))), None);
    assert_eq!(index.query_first(&Selector::Elem(TEXT)), None);
}

#[test]
fn kind_selector_scans_in_document_order() {
    let mut index = ten_elements();
    assert_eq!(locations(&index.query(&Selector::Elem(HEADING))), vec![100, 102, 104, 106, 108]);
}

#[test]
fn capability_selector_asks_for_every_bit() {
    let mut index = ten_elements();
    // Capabilities are n % 4: bit 1 is set for 2 and 3, both bits for 3.
    assert_eq!(locations(&index.query(&Selector::Can(2))), vec![102, 103, 106, 107]);
    assert_eq!(locations(&index.query(&Selector::Can(3))), vec![103, 107]);
    assert_eq!(index.query(&Selector::Can(4)).len(), 0);
}

#[test]
fn regex_selector_matches_text_elements() {
    let elems = vec![
        Element::new(loc(1), TEXT).with_text(String::from("hello world")),
        Element::new(loc(2), HEADING),
        Element::new(loc(3), TEXT).with_text(String::from("goodbye")),
        Element::new(loc(4), TEXT).with_text(String::from("a worrrld apart")),
    ];
    let mut index = Introspector::new(&[page_of(elems)]);
    assert_eq!(locations(&index.query(&Selector::Regex(String::from("wor+ld")))), vec![1, 4]);
    assert_eq!(locations(&index.query(&Selector::Regex(String::from("^good")))), vec![3]);
    assert_eq!(locations(&index.query(&Selector::Regex(String::from("hello world")))), vec![1]);
    assert_eq!(locations(&index.query(&Selector::Regex(String::from("")))), vec![1, 3, 4]);
}

#[test]
fn regex_selector_with_a_broken_pattern_matches_nothing() {
    let elems = vec![Element::new(loc(1), TEXT).with_text(String::from("foo(bar"))];
    let mut index = Introspector::new(&[page_of(elems)]);
    assert_eq!(index.query(&Selector::Regex(String::from("foo(bar"))).len(), 0);
}

#[test]
fn matches_looks_at_one_element() {
    let elem = Element::new(loc(1), TEXT).with_capabilities(5).with_text(String::from("abc"));
    assert!(Selector::Elem(TEXT).matches(&elem));
    assert!(!Selector::Elem(FIGURE).matches(&elem));
    assert!(Selector::Can(4).matches(&elem));
    assert!(Selector::Can(5).matches(&elem));
    assert!(!Selector::Can(2).matches(&elem));
    assert!(Selector::Regex(String::from("b")).matches(&elem));
    assert!(!Selector::Regex(String::from("d")).matches(&elem));
    assert!(!Selector::Label(Label { id: 1 }).matches(&elem));
    assert!(!Selector::Location(loc(1)).matches(&elem));
}

#[test]
fn verdict_counts_only_a_hit() {
    assert!(Selector::verdict(Some(true)));
    assert!(!Selector::verdict(Some(false)));
    assert!(!Selector::verdict(None));
}

#[test]
fn same_and_duplicate_go_by_content() {
    let selector = Selector::Before {
        selector: Box::new(Selector::Or(vec![
            Selector::Elem(HEADING),
            Selector::Regex(String::from("x+")),
        ])),
        end: Box::new(Selector::And(vec![Selector::Can(1), Selector::Location(loc(3))])),
        inclusive: true,
    };
    let copy = selector.duplicate();
    assert!(selector.same(&copy));
    assert!(copy.same(&selector));
    let other = Selector::Before {
        selector: Box::new(Selector::Or(vec![
            Selector::Elem(HEADING),
            Selector::Regex(String::from("x+")),
        ])),
        end: Box::new(Selector::And(vec![Selector::Can(1), Selector::Location(loc(3))])),
        inclusive: false,
    };
    assert!(!selector.same(&other));
    assert!(!Selector::Or(vec![]).same(&Selector::And(vec![])));
    assert!(!Selector::Or(vec![Selector::Elem(1)]).same(&Selector::Or(vec![])));
    assert!(!Selector::Regex(String::from("a")).same(&Selector::Regex(String::from("b"))));
    assert!(Selector::Label(Label { id: 3 }).same(&Selector::Label(Label { id: 3 })));
}

#[test]
fn fingerprint_goes_by_content() {
    let a = Selector::Or(vec![Selector::Elem(HEADING), Selector::Regex(String::from("x+"))]);
    let b = Selector::Or(vec![Selector::Elem(HEADING), Selector::Regex(String::from("x+"))]);
    assert_eq!(a.fingerprint(), b.fingerprint());
    assert_eq!(a.fingerprint(), a.duplicate().fingerprint());
    assert_ne!(Selector::Elem(1).fingerprint(), Selector::Elem(2).fingerprint());
    assert_ne!(Selector::Elem(1).fingerprint(), Selector::Can(1).fingerprint());
    assert_ne!(Selector::Or(vec![]).fingerprint(), Selector::And(vec![]).fingerprint());
    assert_ne!(
        Selector::Regex(String::from("ab")).fingerprint(),
        Selector::Regex(String::from("ba")).fingerprint()
    );
}

#[test]
fn fingerprint_of_a_kind_selector_is_the_folded_value() {
    let seed: u128 = 0x6c62_272e_07bb_0142_62b8_2175_6295_c58d;
    let prime: u128 = 0x0000_0000_0100_0000_0000_0000_0000_013b;
    let tagged = (seed ^ 1).wrapping_mul(prime);
    let expected = (tagged ^ 42).wrapping_mul(prime);
    assert_eq!(Selector::Elem(42).fingerprint(), expected);
}

#[test]
fn all_lists_every_element_in_document_order() {
    let index = ten_elements();
    let all = index.all();
    assert_eq!(all.len(), 10);
    assert_eq!(index.len(), 10);
    assert_eq!(locations(&all), (100..110).collect::<Vec<u128>>());
}
