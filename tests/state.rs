use blockcopy::backup::StorageFormat;
use blockcopy::checksums::StoragePolicy;
use blockcopy::state::{check_state_paths, JobChecksum, first_repeat, Health, Job, State, StateError, StoreState, StoreStateError};

fn job(source: &str, destination: &str, chunk_size: usize) -> Job {
    Job {
        source: String::from(source),
        destination: String::from(destination),
        chunk_size,
        reuse_output: false,
        format: StorageFormat::Raw,
        storage_policy: StoragePolicy::Full,
        checksum: None,
    }
}

fn state(health: Health, jobs: Vec<Job>) -> State {
    State { name: String::from("20240101_000000"), parent_path: None, health, description: String::new(), jobs }
}

#[test]
fn duplicate_sources_and_destinations() {
    assert_eq!(state(Health::Setup, vec![job("/dev/a", "a", 512), job("/dev/b", "b", 512)]).validate(), Ok(()));
    assert_eq!(state(Health::Setup, vec![job("/dev/a", "a", 512), job("/dev/a", "b", 512)]).validate(), Err(StateError::DuplicateSource));
    assert_eq!(state(Health::Setup, vec![job("/dev/a", "a", 512), job("/dev/b", "a", 512)]).validate(), Err(StateError::DuplicateDestination));
}

#[test]
fn parent_compatibility() {
    let jobs = vec![job("/dev/a", "a", 4096), job("/dev/b", "b", 4096)];
    let child = state(Health::Setup, jobs.clone());
    assert_eq!(child.check_parent(&state(Health::Success, jobs.clone())), Ok(()));
    assert_eq!(child.check_parent(&state(Health::Failure, jobs.clone())), Err(StateError::ParentNotSuccessful));
    assert_eq!(child.check_parent(&state(Health::Success, vec![job("/dev/a", "a", 4096)])), Err(StateError::MissingSource(1)));
    assert_eq!(child.check_parent(&state(Health::Success, vec![job("/dev/a", "a", 4096), job("/dev/b", "b", 512)])), Err(StateError::ChunkSizeMismatch(1)));
    assert_eq!(child.check_parent(&state(Health::Success, vec![job("/dev/a", "a", 4096), job("/dev/b", "c", 4096)])), Err(StateError::JobsDiffer));
    let mut sparse = job("/dev/b", "b", 4096);
    sparse.format = StorageFormat::Sparse;
    assert_eq!(child.check_parent(&state(Health::Success, vec![job("/dev/a", "a", 4096), sparse])), Err(StateError::JobsDiffer));
    let mut summed = job("/dev/b", "b", 4096);
    summed.checksum = Some(JobChecksum { algorithm: String::from("sha256"), size: 32, destination: String::from("b.sum"), trust: true, storage_policy: StoragePolicy::Full });
    assert_eq!(child.check_parent(&state(Health::Success, vec![job("/dev/a", "a", 4096), summed.clone()])), Err(StateError::JobsDiffer));
    let with_sums = state(Health::Setup, vec![job("/dev/a", "a", 4096), summed.clone()]);
    assert_eq!(with_sums.check_parent(&state(Health::Success, vec![job("/dev/a", "a", 4096), summed])), Ok(()));
}

#[test]
fn cycles_are_found() {
    let paths = vec![String::from("s3"), String::from("s2"), String::from("s1")];
    assert_eq!(first_repeat(&paths), None);
    let cyclic = vec![String::from("s3"), String::from("s2"), String::from("s3")];
    assert_eq!(first_repeat(&cyclic), Some(2));
}

#[test]
fn store_state_tracks_current() {
    let mut store = StoreState::empty();
    assert_eq!(store.validate(), Ok(()));
    store.advance(String::from("a"));
    store.advance(String::from("b"));
    store.advance(String::from("a"));
    assert_eq!(store.validate(), Ok(()));
    assert_eq!(store.current, Some(String::from("a")));
    assert_eq!(store.states.len(), 2);
    let broken = StoreState { current: Some(String::from("x")), states: vec![String::from("y")] };
    assert_eq!(broken.validate(), Err(StoreStateError::UnknownCurrent));
    let repeated = StoreState { current: None, states: vec![String::from("y"), String::from("y")] };
    assert_eq!(repeated.validate(), Err(StoreStateError::DuplicateState));
}

#[test]
fn state_path_and_store_exclude_each_other() {
    assert_eq!(check_state_paths(&Some(String::from("store")), &Some(String::from("s.yaml"))), Err(StateError::StatePathWithStore));
    assert_eq!(check_state_paths(&Some(String::from("store")), &None), Ok(()));
    assert_eq!(check_state_paths(&None, &Some(String::from("s.yaml"))), Ok(()));
}
