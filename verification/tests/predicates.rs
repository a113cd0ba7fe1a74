use ein_infer::predicates::{get, is_predicate, names, Pred};

#[test]
fn the_registry_is_the_two_names_m1_ships() {
    assert_eq!(names(), ["eq", "neq"]);
    assert!(names().windows(2).all(|w| w[0] < w[1]), "names() is sorted");
    assert_eq!(get("eq"), Some(Pred::Eq));
    assert_eq!(get("neq"), Some(Pred::Neq));
    assert!(!is_predicate("not"));
    assert!(!is_predicate("absent"));
}

#[test]
fn every_registered_predicate_declares_its_arity() {
    for name in names() {
        let p = get(name).expect("names() is the registry");
        assert_eq!(p.arity(), 2, "{name}: M1's two predicates are binary");
    }
}

#[test]
fn a_predicate_renders_its_own_name() {
    assert_eq!(Pred::Eq.as_str(), "eq");
    assert_eq!(Pred::Neq.as_str(), "neq");
    assert_eq!(get("e"), None);
    assert_eq!(get("eqq"), None);
    assert_eq!(get(""), None);
}
