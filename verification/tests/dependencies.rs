use railyard::dependencies::{Dependencies, Dependency};

#[test]
fn the_first_waiter_brings_the_channel() {
    let mut dependencies: Dependencies<u32> = Dependencies::new();
    assert_eq!(dependencies.wait("test".to_string(), "build", 1), Some(&1));
    assert_eq!(dependencies.wait("lint".to_string(), "build", 2), Some(&1));
    assert_eq!(dependencies.wait("test".to_string(), "fetch", 3), Some(&3));
    assert!(!dependencies.ready_already("build"));
    assert_eq!(dependencies.ready("build"), Some(1));
    assert!(dependencies.ready_already("build"));
    assert!(!dependencies.ready_already("fetch"));
}

#[test]
fn nobody_waits_for_what_is_ready() {
    let mut dependencies: Dependencies<u32> = Dependencies::new();
    assert_eq!(dependencies.ready("build"), None);
    assert_eq!(dependencies.wait("test".to_string(), "build", 1), None);
    assert!(dependencies.ready_already("build"));
}

#[test]
fn giving_up_names_the_waiters_in_order() {
    let mut dependencies: Dependencies<u32> = Dependencies::new();
    dependencies.wait("b".to_string(), "z", 1);
    dependencies.wait("c".to_string(), "a", 2);
    dependencies.wait("a".to_string(), "z", 3);
    dependencies.ready("done");
    assert_eq!(
        dependencies.cancel(),
        "cancelling a: awaited by c\ncancelling z: awaited by b,a\n"
    );
    assert_eq!(dependencies.cancel(), "");
}

#[test]
fn giving_up_forgets_what_was_ready() {
    let mut dependencies: Dependencies<u32> = Dependencies::new();
    dependencies.ready("build");
    assert_eq!(dependencies.cancel(), "");
    assert!(!dependencies.ready_already("build"));
    assert_eq!(dependencies.wait("test".to_string(), "build", 9), Some(&9));
    assert_eq!(dependencies.ready("build"), Some(9));
}

#[test]
fn a_state_has_a_word() {
    let waiting: Dependency<u32> = Dependency::Waiting(1, vec!["a".to_string()]);
    let ready: Dependency<u32> = Dependency::Ready;
    assert_eq!(waiting.fmt(), "Waiting");
    assert_eq!(ready.fmt(), "Recieved");
}

#[test]
fn a_wait_is_settled_by_whichever_comes_first() {
    let mut dependencies: Dependencies<u32> = Dependencies::new();
    assert_eq!(dependencies.wait("a".to_string(), "build", 1), Some(&1));
    assert_eq!(dependencies.wait("b".to_string(), "fetch", 2), Some(&2));
    assert_eq!(dependencies.ready("fetch"), Some(2));
    assert_eq!(dependencies.wait("c".to_string(), "build", 3), Some(&1));
    dependencies.cancel();
    assert_eq!(dependencies.ready("build"), None);
    dependencies.cancel();
    assert_eq!(dependencies.wait("d".to_string(), "build", 4), Some(&4));
    assert_eq!(dependencies.ready("build"), Some(4));
    assert_eq!(dependencies.cancel(), "");
}
