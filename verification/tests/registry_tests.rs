use backtor::registry::{CancellationHandle, ServiceRegistry};

#[test]
fn distinct_registers_are_both_observed() {
    let mut reg: ServiceRegistry<u32> = ServiceRegistry::new();
    reg.register(String::from("alpha"), 1);
    reg.register(String::from("beta"), 2);
    assert_eq!(reg.lookup(&String::from("alpha")), Some(&1));
    assert_eq!(reg.lookup(&String::from("beta")), Some(&2));
    assert_eq!(reg.len(), 2);
}

#[test]
fn registration_order_does_not_matter() {
    let mut one: ServiceRegistry<u32> = ServiceRegistry::new();
    one.register(String::from("alpha"), 1);
    one.register(String::from("beta"), 2);
    let mut two: ServiceRegistry<u32> = ServiceRegistry::new();
    two.register(String::from("beta"), 2);
    two.register(String::from("alpha"), 1);
    assert_eq!(one.lookup(&String::from("alpha")), two.lookup(&String::from("alpha")));
    assert_eq!(one.lookup(&String::from("beta")), two.lookup(&String::from("beta")));
    assert_eq!(one.len(), two.len());
}

#[test]
fn registering_the_same_address_replaces_the_handle() {
    let mut reg: ServiceRegistry<u32> = ServiceRegistry::new();
    reg.register(String::from("alpha"), 1);
    reg.register(String::from("alpha"), 9);
    assert_eq!(reg.lookup(&String::from("alpha")), Some(&9));
    assert_eq!(reg.len(), 1);
}

#[test]
fn lookup_of_an_unregistered_address_finds_nothing() {
    let mut reg: ServiceRegistry<u32> = ServiceRegistry::new();
    reg.register(String::from("alpha"), 1);
    assert_eq!(reg.lookup(&String::from("missing")), None);
}

#[test]
fn empty_registry_has_no_entries() {
    let reg: ServiceRegistry<u32> = ServiceRegistry::new();
    assert_eq!(reg.len(), 0);
    assert_eq!(reg.lookup(&String::from("alpha")), None);
}

#[test]
fn cancellation_is_terminal() {
    let mut h = CancellationHandle::new();
    assert!(!h.is_cancelled());
    h.cancel();
    assert!(h.is_cancelled());
    h.cancel();
    assert!(h.is_cancelled());
}

#[test]
fn registered_handles_are_looked_up_by_address() {
    let mut reg: ServiceRegistry<CancellationHandle> = ServiceRegistry::new();
    reg.register(String::from("svc"), CancellationHandle::new());
    let h = reg.lookup(&String::from("svc")).expect("the handle was registered");
    assert!(!h.is_cancelled());
}
