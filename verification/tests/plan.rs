use ein_infer::plan::{PlanId, Span};

#[test]
fn a_span_is_a_range() {
    let s = Span { start: 3, len: 2 };
    assert_eq!(s.range(), 3..5);
    assert!(Span::empty().is_empty());
}

#[test]
fn a_span_reports_its_length() {
    let s = Span { start: 7, len: 4 };
    assert_eq!(s.len(), 4);
    assert!(!s.is_empty());
    assert!(PlanId(1) < PlanId(2));
}
