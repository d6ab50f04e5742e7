use rf_engine::source::SourceResolver;

#[test]
fn sources_are_ordered_by_descending_priority() {
    let r = SourceResolver::new(vec![("flat", 0), ("lidar", 100), ("srtm", 50)]);
    assert_eq!(r.sources(), &["lidar", "srtm", "flat"]);
}

#[test]
fn equal_priorities_keep_registration_order() {
    let r = SourceResolver::new(vec![("a", 5), ("b", 7), ("c", 5), ("d", 7), ("e", 5)]);
    assert_eq!(r.sources(), &["b", "d", "a", "c", "e"]);
}

#[test]
fn no_sources_gives_empty_resolver() {
    let r: SourceResolver<u8> = SourceResolver::new(Vec::new());
    assert!(r.sources().is_empty());
    assert_eq!(r.resolve(|_| true), None);
}

#[test]
fn resolve_returns_first_supporting_source() {
    let r = SourceResolver::new(vec![(10, 1), (20, 4), (30, 3), (40, 2)]);
    assert_eq!(r.sources(), &[20, 30, 40, 10]);
    assert_eq!(r.resolve(|s| *s % 20 == 0), Some(&20));
    assert_eq!(r.resolve(|s| *s >= 30), Some(&30));
    assert_eq!(r.resolve(|s| *s == 10), Some(&10));
    assert_eq!(r.resolve(|s| *s > 100), None);
}

#[test]
fn resolve_stops_at_first_acceptance() {
    let r = SourceResolver::new(vec![(1, 0), (2, 0), (3, 0)]);
    let asked = std::cell::RefCell::new(Vec::new());
    let found = r.resolve(|s| {
        asked.borrow_mut().push(*s);
        *s == 2
    });
    assert_eq!(found, Some(&2));
    assert_eq!(*asked.borrow(), vec![1, 2]);
}

#[test]
fn higher_priority_source_wins_over_earlier_registration() {
    let r = SourceResolver::new(vec![("global", 0), ("regional", 10), ("local", 100)]);
    assert_eq!(r.resolve(|_| true), Some(&"local"));
    assert_eq!(r.resolve(|s| *s != "local"), Some(&"regional"));
}
