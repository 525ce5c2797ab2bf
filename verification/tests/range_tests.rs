use pubgrub_debian::debian_version::DebianVersion;
use pubgrub_debian::range::VersionRange;

fn v(s: &str) -> DebianVersion {
    DebianVersion(s.to_string())
}

#[test]
fn test_bound_constructors_membership() {
    // For any version v: higherOrEqual(v) contains v, strictlyHigher(v)
    // does not, and the other constructors agree with the comparator.
    let x = v("1.0");
    assert!(VersionRange::higher_or_equal(v("1.0")).contains(&x));
    assert!(!VersionRange::strictly_higher(v("1.0")).contains(&x));
    assert!(VersionRange::lower_or_equal(v("1.0")).contains(&x));
    assert!(!VersionRange::strictly_lower(v("1.0")).contains(&x));
    assert!(VersionRange::singleton(v("1.0")).contains(&x));
    assert!(VersionRange::full().contains(&x));
    assert!(!VersionRange::empty().contains(&x));
}

#[test]
fn test_membership_consistent_with_comparator() {
    assert!(VersionRange::higher_or_equal(v("1.0")).contains(&v("1.0.1")));
    assert!(!VersionRange::higher_or_equal(v("1.0")).contains(&v("1.0~beta")));
    assert!(VersionRange::strictly_higher(v("1.0")).contains(&v("1.0.1")));
    assert!(VersionRange::strictly_lower(v("1.0")).contains(&v("1.0~beta")));
    assert!(!VersionRange::strictly_lower(v("1.0")).contains(&v("1.0-0")));
    // singleton goes by the comparator, not by string equality
    assert!(VersionRange::singleton(v("1.0")).contains(&v("1.0-0")));
    assert!(VersionRange::singleton(v("1.0")).contains(&v("0:1.0")));
    assert!(!VersionRange::singleton(v("1.0")).contains(&v("1.0.1")));
}

#[test]
fn test_union_and_intersection() {
    let low = VersionRange::strictly_lower(v("1.0"));
    let high = VersionRange::higher_or_equal(v("2.0"));
    let both = low.union(&high);
    assert!(both.contains(&v("0.5")));
    assert!(both.contains(&v("2.0")));
    assert!(!both.contains(&v("1.5")));

    let mid = VersionRange::higher_or_equal(v("1.0")).intersection(
        &VersionRange::strictly_lower(v("2.0")),
    );
    assert!(mid.contains(&v("1.5")));
    assert!(mid.contains(&v("1.0")));
    assert!(!mid.contains(&v("2.0")));
    assert!(!mid.contains(&v("0.9")));
}

#[test]
fn test_is_empty() {
    assert!(VersionRange::empty().is_empty());
    assert!(!VersionRange::full().is_empty());
    assert!(!VersionRange::singleton(v("1.0")).is_empty());
    let none = VersionRange::higher_or_equal(v("2.0")).intersection(
        &VersionRange::strictly_lower(v("1.0")),
    );
    assert!(none.is_empty());
}
