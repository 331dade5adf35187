use version_chain::descriptor::VersionDescriptor;
use version_chain::error::{ChainError, ChainInvariant};
use version_chain::registry::ChainRegistry;
use version_chain::step::VersionStep;

fn v(major: usize, minor: usize) -> VersionDescriptor {
    VersionDescriptor::new(major, minor, 0, 0)
}

fn root(version: VersionDescriptor) -> VersionStep<u32> {
    VersionStep::root(version, 0)
}

fn link(predecessor: VersionDescriptor, version: VersionDescriptor) -> VersionStep<u32> {
    VersionStep::after(predecessor, version, 0)
}

fn registry_of(steps: Vec<VersionStep<u32>>) -> ChainRegistry<u32> {
    let mut registry = ChainRegistry::new();
    for step in steps {
        let _ = registry.register(step);
    }
    registry
}

fn broken(invariant: ChainInvariant, offender: VersionDescriptor) -> ChainError {
    ChainError::BrokenChain { invariant, offender }
}

#[test]
fn new_registry_is_empty() {
    let registry: ChainRegistry<u32> = ChainRegistry::new();
    assert_eq!(registry.len(), 0);
    assert!(!registry.contains(&v(1, 0)));
}

#[test]
fn register_accepts_new_versions() {
    let mut registry = ChainRegistry::new();
    assert_eq!(registry.register(root(v(1, 0))), Ok(()));
    assert_eq!(registry.register(link(v(1, 0), v(1, 1))), Ok(()));
    assert_eq!(registry.len(), 2);
    assert!(registry.contains(&v(1, 0)));
    assert!(registry.contains(&v(1, 1)));
}

#[test]
fn register_refuses_a_version_twice() {
    let mut registry = ChainRegistry::new();
    assert_eq!(registry.register(root(v(1, 0))), Ok(()));
    assert_eq!(
        registry.register(VersionStep::root(v(1, 0), 7)),
        Err(ChainError::DuplicateVersion { version: v(1, 0) })
    );
    assert_eq!(registry.len(), 1);
    assert_eq!(registry.lookup(&v(1, 0)).unwrap().transform, 0);
}

#[test]
fn registry_keeps_steps_in_order_of_version() {
    let registry = registry_of(vec![link(v(1, 1), v(2, 0)), root(v(1, 0)), link(v(1, 0), v(1, 1))]);
    assert_eq!(registry.get(0).unwrap().version, v(1, 0));
    assert_eq!(registry.get(1).unwrap().version, v(1, 1));
    assert_eq!(registry.get(2).unwrap().version, v(2, 0));
    assert!(registry.get(3).is_none());
    assert_eq!(registry.position(&v(1, 1)), Some(1));
    assert_eq!(registry.position(&v(3, 0)), None);
}

#[test]
fn lookup_finds_a_registered_step() {
    let registry = registry_of(vec![root(v(1, 0)), link(v(1, 0), v(1, 1))]);
    let step = registry.lookup(&v(1, 1)).unwrap();
    assert_eq!(step.version, v(1, 1));
    assert_eq!(step.predecessor, Some(v(1, 0)));
}

#[test]
fn lookup_of_an_unregistered_version_fails() {
    let registry = registry_of(vec![root(v(1, 0)), link(v(1, 0), v(1, 1))]);
    assert_eq!(
        registry.lookup(&v(1, 2)).err(),
        Some(ChainError::UnknownVersion { version: v(1, 2) })
    );
    let empty: ChainRegistry<u32> = ChainRegistry::new();
    assert_eq!(
        empty.lookup(&v(1, 0)).err(),
        Some(ChainError::UnknownVersion { version: v(1, 0) })
    );
}

#[test]
fn root_and_latest_of_an_empty_registry_fail() {
    let registry: ChainRegistry<u32> = ChainRegistry::new();
    assert_eq!(registry.root().err(), Some(ChainError::EmptyChain));
    assert_eq!(registry.latest().err(), Some(ChainError::EmptyChain));
}

#[test]
fn root_and_latest_of_a_chain() {
    let registry = registry_of(vec![link(v(1, 1), v(2, 0)), link(v(1, 0), v(1, 1)), root(v(1, 0))]);
    assert_eq!(registry.root().unwrap().version, v(1, 0));
    assert_eq!(registry.latest().unwrap().version, v(2, 0));
}

#[test]
fn root_of_a_registry_without_root_fails() {
    let registry = registry_of(vec![link(v(1, 0), v(1, 1)), link(v(1, 1), v(2, 0))]);
    assert_eq!(registry.root().err(), Some(broken(ChainInvariant::SingleRoot, v(1, 1))));
}

#[test]
fn root_of_a_registry_with_two_roots_fails() {
    let registry = registry_of(vec![root(v(1, 0)), root(v(2, 0)), root(v(3, 0))]);
    assert_eq!(registry.root().err(), Some(broken(ChainInvariant::SingleRoot, v(2, 0))));
}

#[test]
fn finalize_accepts_a_chain() {
    let registry = registry_of(vec![root(v(1, 0)), link(v(1, 0), v(1, 1)), link(v(1, 1), v(2, 0))]);
    assert_eq!(registry.diagnose(), None);
    let planner = registry.finalize().ok().unwrap();
    assert_eq!(planner.registry().len(), 3);
    assert_eq!(planner.registry().root().unwrap().version, v(1, 0));
    assert_eq!(planner.registry().latest().unwrap().version, v(2, 0));
}

#[test]
fn finalize_accepts_a_single_root() {
    let registry = registry_of(vec![root(v(1, 0))]);
    assert!(registry.finalize().is_ok());
}

#[test]
fn finalize_does_not_depend_on_the_order_of_registration() {
    let registry = registry_of(vec![link(v(1, 1), v(2, 0)), root(v(1, 0)), link(v(1, 0), v(1, 1))]);
    assert!(registry.finalize().is_ok());
}

#[test]
fn finalize_of_an_empty_registry_fails() {
    let registry: ChainRegistry<u32> = ChainRegistry::new();
    assert_eq!(registry.finalize().err(), Some(ChainError::EmptyChain));
}

#[test]
fn finalize_without_root_fails() {
    let registry = registry_of(vec![link(v(1, 0), v(1, 1)), link(v(1, 1), v(2, 0))]);
    assert_eq!(registry.finalize().err(), Some(broken(ChainInvariant::SingleRoot, v(1, 1))));
}

#[test]
fn finalize_with_two_roots_fails() {
    let registry = registry_of(vec![root(v(1, 0)), root(v(1, 1)), link(v(1, 1), v(2, 0))]);
    assert_eq!(registry.finalize().err(), Some(broken(ChainInvariant::SingleRoot, v(1, 1))));
}

#[test]
fn finalize_after_a_duplicate_fails() {
    let registry = registry_of(vec![
        root(v(1, 0)),
        link(v(1, 0), v(1, 1)),
        link(v(1, 0), v(1, 1)),
        root(v(1, 0)),
    ]);
    assert_eq!(registry.len(), 2);
    assert_eq!(
        registry.finalize().err(),
        Some(ChainError::DuplicateVersion { version: v(1, 1) })
    );
}

#[test]
fn finalize_with_a_dangling_predecessor_fails() {
    let registry = registry_of(vec![root(v(1, 0)), link(v(1, 0), v(1, 1)), link(v(1, 5), v(2, 0))]);
    assert_eq!(
        registry.finalize().err(),
        Some(broken(ChainInvariant::KnownPredecessor, v(2, 0)))
    );
}

#[test]
fn finalize_with_a_cycle_fails() {
    let registry = registry_of(vec![root(v(1, 0)), link(v(3, 0), v(2, 0)), link(v(2, 0), v(3, 0))]);
    assert_eq!(registry.finalize().err(), Some(broken(ChainInvariant::ReachesRoot, v(2, 0))));
}

#[test]
fn finalize_with_a_step_that_follows_itself_fails() {
    let registry = registry_of(vec![root(v(1, 0)), link(v(2, 0), v(2, 0))]);
    assert_eq!(registry.finalize().err(), Some(broken(ChainInvariant::ReachesRoot, v(2, 0))));
}

#[test]
fn finalize_with_a_branch_fails() {
    let registry = registry_of(vec![root(v(1, 0)), link(v(1, 0), v(1, 1)), link(v(1, 0), v(2, 0))]);
    assert_eq!(registry.finalize().err(), Some(broken(ChainInvariant::AscendingLinks, v(2, 0))));
}

#[test]
fn finalize_with_links_against_the_order_fails() {
    let registry = registry_of(vec![root(v(1, 0)), link(v(1, 0), v(2, 0)), link(v(2, 0), v(1, 5))]);
    assert_eq!(registry.finalize().err(), Some(broken(ChainInvariant::AscendingLinks, v(1, 5))));
}

#[test]
fn check_names_the_lowest_offender_of_each_invariant() {
    let registry = registry_of(vec![
        root(v(1, 0)),
        link(v(9, 0), v(2, 0)),
        link(v(9, 1), v(3, 0)),
    ]);
    assert_eq!(registry.check(ChainInvariant::SingleRoot), Ok(()));
    assert_eq!(
        registry.check(ChainInvariant::KnownPredecessor),
        Err(broken(ChainInvariant::KnownPredecessor, v(2, 0)))
    );
    assert_eq!(
        registry.check(ChainInvariant::ReachesRoot),
        Err(broken(ChainInvariant::ReachesRoot, v(2, 0)))
    );
    assert_eq!(
        registry.check(ChainInvariant::AscendingLinks),
        Err(broken(ChainInvariant::AscendingLinks, v(2, 0)))
    );
}

#[test]
fn diagnose_reports_the_first_duplicate() {
    let mut registry = ChainRegistry::new();
    assert_eq!(registry.register(root(v(1, 0))), Ok(()));
    assert_eq!(registry.register(link(v(1, 0), v(1, 1))), Ok(()));
    assert!(registry.register(link(v(1, 0), v(1, 1))).is_err());
    assert!(registry.register(root(v(1, 0))).is_err());
    assert_eq!(registry.diagnose(), Some(ChainError::DuplicateVersion { version: v(1, 1) }));
}
