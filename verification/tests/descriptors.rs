use version_chain::descriptor::VersionDescriptor;

fn v(major: usize, minor: usize, patch: usize, build: usize) -> VersionDescriptor {
    VersionDescriptor::new(major, minor, patch, build)
}

#[test]
fn new_keeps_the_four_components() {
    let d = v(1, 2, 3, 4);
    assert_eq!(d.major, 1);
    assert_eq!(d.minor, 2);
    assert_eq!(d.patch, 3);
    assert_eq!(d.build, 4);
}

#[test]
fn descriptors_are_equal_when_all_components_match() {
    assert_eq!(v(1, 2, 3, 4), v(1, 2, 3, 4));
    assert_ne!(v(1, 2, 3, 4), v(0, 2, 3, 4));
    assert_ne!(v(1, 2, 3, 4), v(1, 0, 3, 4));
    assert_ne!(v(1, 2, 3, 4), v(1, 2, 0, 4));
    assert_ne!(v(1, 2, 3, 4), v(1, 2, 3, 0));
}

#[test]
fn order_is_lexicographic() {
    assert!(v(1, 9, 9, 9).is_before(&v(2, 0, 0, 0)));
    assert!(v(1, 1, 9, 9).is_before(&v(1, 2, 0, 0)));
    assert!(v(1, 1, 1, 9).is_before(&v(1, 1, 2, 0)));
    assert!(v(1, 1, 1, 1).is_before(&v(1, 1, 1, 2)));
    assert!(!v(2, 0, 0, 0).is_before(&v(1, 9, 9, 9)));
    assert!(!v(1, 2, 0, 0).is_before(&v(1, 1, 9, 9)));
    assert!(!v(0, 10, 0, 0).is_before(&v(0, 9, 0, 0)));
}

#[test]
fn nothing_is_before_itself() {
    let d = v(0, 2, 13, 0);
    assert!(!d.is_before(&d));
    assert!(!d.is_after(&d));
}

#[test]
fn is_after_mirrors_is_before() {
    let a = v(0, 2, 13, 0);
    let b = v(0, 2, 16, 0);
    assert!(a.is_before(&b));
    assert!(b.is_after(&a));
    assert!(!a.is_after(&b));
    assert!(!b.is_before(&a));
}

#[test]
fn of_two_different_descriptors_exactly_one_is_first() {
    let all = [v(0, 0, 0, 0), v(0, 0, 0, 1), v(0, 0, 1, 0), v(0, 1, 0, 0), v(1, 0, 0, 0)];
    for (i, a) in all.iter().enumerate() {
        for (j, b) in all.iter().enumerate() {
            assert_eq!(a.is_before(b), i < j);
            assert_eq!(a.is_after(b), i > j);
        }
    }
}

#[test]
fn order_is_transitive_on_a_sample() {
    let a = v(0, 2, 12, 0);
    let b = v(0, 2, 13, 0);
    let c = v(0, 2, 13, 1);
    assert!(a.is_before(&b));
    assert!(b.is_before(&c));
    assert!(a.is_before(&c));
}

#[test]
fn derived_order_agrees_with_is_before() {
    let a = v(1, 2, 3, 4);
    let b = v(1, 2, 4, 0);
    assert!(a < b);
    assert_eq!(a < b, a.is_before(&b));
    assert_eq!(b < a, b.is_before(&a));
}

#[test]
fn render_leaves_out_a_zero_build() {
    assert_eq!(v(0, 2, 13, 0).render(), "0.2.13");
    assert_eq!(v(1, 0, 0, 0).render(), "1.0.0");
}

#[test]
fn render_shows_a_build_that_is_not_zero() {
    assert_eq!(v(0, 2, 16, 1).render(), "0.2.16.1");
    assert_eq!(v(10, 200, 3000, 40000).render(), "10.200.3000.40000");
}

#[test]
fn render_tells_different_descriptors_apart() {
    assert_ne!(v(1, 2, 3, 0).render(), v(1, 2, 3, 1).render());
    assert_ne!(v(1, 23, 0, 0).render(), v(12, 3, 0, 0).render());
}
