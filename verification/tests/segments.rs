use haske_router::segment::{contains_name, same_constraint, Constraint, SegmentDescriptor};

#[test]
fn a_segment_tells_the_name_it_binds() {
    let literal = SegmentDescriptor::Literal(b"users".to_vec());
    let param = SegmentDescriptor::Param(b"id".to_vec(), Some(Constraint::Digits));
    let wildcard = SegmentDescriptor::Wildcard(b"rest".to_vec());
    assert_eq!(literal.name(), None);
    assert_eq!(param.name(), Some(&b"id".to_vec()));
    assert_eq!(wildcard.name(), Some(&b"rest".to_vec()));
    assert!(!literal.is_wildcard());
    assert!(!param.is_wildcard());
    assert!(wildcard.is_wildcard());
}

#[test]
fn a_copy_of_a_segment_equals_it() {
    let segments = [
        SegmentDescriptor::Literal(b"users".to_vec()),
        SegmentDescriptor::Literal(Vec::new()),
        SegmentDescriptor::Param(b"id".to_vec(), None),
        SegmentDescriptor::Param(b"id".to_vec(), Some(Constraint::Alnum)),
        SegmentDescriptor::Wildcard(b"rest".to_vec()),
    ];
    for segment in segments.iter() {
        assert_eq!(&segment.duplicate(), segment);
    }
    assert_ne!(segments[2], segments[3]);
    assert_ne!(
        SegmentDescriptor::Param(b"x".to_vec(), None),
        SegmentDescriptor::Wildcard(b"x".to_vec())
    );
}

#[test]
fn constraints_are_compared() {
    assert!(same_constraint(&None, &None));
    assert!(same_constraint(&Some(Constraint::Digits), &Some(Constraint::Digits)));
    assert!(!same_constraint(&Some(Constraint::Digits), &Some(Constraint::Alpha)));
    assert!(!same_constraint(&Some(Constraint::Alnum), &Some(Constraint::Alpha)));
    assert!(!same_constraint(&Some(Constraint::Digits), &None));
    assert!(!same_constraint(&None, &Some(Constraint::Digits)));
}

#[test]
fn a_name_is_looked_up_among_names() {
    let names = vec![b"a".to_vec(), b"bc".to_vec(), Vec::new()];
    assert!(contains_name(&names, b"a"));
    assert!(contains_name(&names, b"bc"));
    assert!(contains_name(&names, b""));
    assert!(!contains_name(&names, b"b"));
    assert!(!contains_name(&names, b"abc"));
    assert!(!contains_name(&Vec::new(), b"a"));
}
