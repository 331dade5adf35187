use version_chain::descriptor::VersionDescriptor;
use version_chain::error::ChainError;
use version_chain::plan::MigrationPlan;
use version_chain::planner::MigrationPlanner;
use version_chain::registry::ChainRegistry;
use version_chain::step::{Direction, VersionStep};

fn v(major: usize, minor: usize) -> VersionDescriptor {
    VersionDescriptor::new(major, minor, 0, 0)
}

fn three_versions() -> MigrationPlanner<&'static str> {
    let mut registry = ChainRegistry::new();
    registry.register(VersionStep::after(v(1, 1), v(2, 0), "c")).unwrap();
    registry.register(VersionStep::root(v(1, 0), "a")).unwrap();
    registry.register(VersionStep::after(v(1, 0), v(1, 1), "b")).unwrap();
    registry.finalize().ok().unwrap()
}

fn five_versions() -> MigrationPlanner<&'static str> {
    let mut registry = ChainRegistry::new();
    registry.register(VersionStep::root(v(1, 0), "a")).unwrap();
    registry.register(VersionStep::after(v(1, 0), v(1, 1), "b")).unwrap();
    registry.register(VersionStep::after(v(1, 1), v(2, 0), "c")).unwrap();
    registry.register(VersionStep::after(v(2, 0), v(2, 5), "d")).unwrap();
    registry.register(VersionStep::after(v(2, 5), v(3, 0), "e")).unwrap();
    registry.finalize().ok().unwrap()
}

fn entries(plan: &MigrationPlan<&'static str>) -> Vec<(VersionDescriptor, Direction)> {
    plan.steps.iter().map(|entry| (entry.step.version, entry.direction)).collect()
}

#[test]
fn plan_to_the_same_version_is_empty() {
    let planner = three_versions();
    for version in [v(1, 0), v(1, 1), v(2, 0)] {
        let plan = planner.plan(&version, &version).ok().unwrap();
        assert!(plan.is_empty());
        assert_eq!(plan.len(), 0);
        assert_eq!(plan.start, version);
        assert_eq!(plan.target, version);
    }
}

#[test]
fn plan_to_the_same_unregistered_version_is_empty() {
    let planner = three_versions();
    let plan = planner.plan(&v(7, 0), &v(7, 0)).ok().unwrap();
    assert!(plan.is_empty());
}

#[test]
fn plan_between_neighbours_is_one_transform() {
    let planner = five_versions();
    let chain = [v(1, 0), v(1, 1), v(2, 0), v(2, 5), v(3, 0)];
    for pair in chain.windows(2) {
        let up = planner.plan(&pair[0], &pair[1]).ok().unwrap();
        assert_eq!(entries(&up), vec![(pair[1], Direction::Up)]);
        let down = planner.plan(&pair[1], &pair[0]).ok().unwrap();
        assert_eq!(entries(&down), vec![(pair[1], Direction::Down)]);
    }
}

#[test]
fn plan_up_over_three_versions() {
    let planner = three_versions();
    let plan = planner.plan(&v(1, 0), &v(2, 0)).ok().unwrap();
    assert_eq!(entries(&plan), vec![(v(1, 1), Direction::Up), (v(2, 0), Direction::Up)]);
    assert_eq!(plan.start, v(1, 0));
    assert_eq!(plan.target, v(2, 0));
}

#[test]
fn plan_down_over_three_versions() {
    let planner = three_versions();
    let plan = planner.plan(&v(2, 0), &v(1, 0)).ok().unwrap();
    assert_eq!(entries(&plan), vec![(v(2, 0), Direction::Down), (v(1, 1), Direction::Down)]);
    assert_eq!(plan.start, v(2, 0));
    assert_eq!(plan.target, v(1, 0));
}

#[test]
fn plan_holds_the_steps_of_the_registry() {
    let planner = three_versions();
    let plan = planner.plan(&v(1, 0), &v(2, 0)).ok().unwrap();
    assert_eq!(plan.steps[0].step.transform, "b");
    assert_eq!(plan.steps[0].step.predecessor, Some(v(1, 0)));
    assert_eq!(plan.steps[1].step.transform, "c");
    assert_eq!(plan.steps[1].step.predecessor, Some(v(1, 1)));
}

#[test]
fn plan_inside_a_longer_chain() {
    let planner = five_versions();
    let up = planner.plan(&v(1, 1), &v(2, 5)).ok().unwrap();
    assert_eq!(entries(&up), vec![(v(2, 0), Direction::Up), (v(2, 5), Direction::Up)]);
    let down = planner.plan(&v(3, 0), &v(1, 0)).ok().unwrap();
    assert_eq!(
        entries(&down),
        vec![
            (v(3, 0), Direction::Down),
            (v(2, 5), Direction::Down),
            (v(2, 0), Direction::Down),
            (v(1, 1), Direction::Down),
        ]
    );
}

#[test]
fn plan_back_is_the_plan_there_reversed() {
    let planner = five_versions();
    let chain = [v(1, 0), v(1, 1), v(2, 0), v(2, 5), v(3, 0)];
    for a in chain {
        for b in chain {
            let there = entries(&planner.plan(&a, &b).ok().unwrap());
            let back = entries(&planner.plan(&b, &a).ok().unwrap());
            let mut expected: Vec<(VersionDescriptor, Direction)> =
                there.iter().map(|(version, direction)| (*version, direction.reversed())).collect();
            expected.reverse();
            assert_eq!(back, expected);
        }
    }
}

#[test]
fn plan_from_an_unregistered_version_fails() {
    let planner = three_versions();
    assert_eq!(
        planner.plan(&v(1, 5), &v(2, 0)).err(),
        Some(ChainError::UnknownVersion { version: v(1, 5) })
    );
}

#[test]
fn plan_to_an_unregistered_version_fails() {
    let planner = three_versions();
    assert_eq!(
        planner.plan(&v(1, 0), &v(9, 0)).err(),
        Some(ChainError::UnknownVersion { version: v(9, 0) })
    );
}

#[test]
fn plan_between_two_unregistered_versions_names_the_current_one() {
    let planner = three_versions();
    assert_eq!(
        planner.plan(&v(8, 0), &v(9, 0)).err(),
        Some(ChainError::UnknownVersion { version: v(8, 0) })
    );
}

#[test]
fn lookup_through_the_planner_fails_for_an_unregistered_version() {
    let planner = three_versions();
    assert_eq!(
        planner.registry().lookup(&v(1, 5)).err(),
        Some(ChainError::UnknownVersion { version: v(1, 5) })
    );
    assert_eq!(planner.registry().lookup(&v(1, 1)).unwrap().transform, "b");
}

#[test]
fn direction_reversed_turns_round() {
    assert_eq!(Direction::Up.reversed(), Direction::Down);
    assert_eq!(Direction::Down.reversed(), Direction::Up);
}
