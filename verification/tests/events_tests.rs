use rustweb::events::EventDelegator;

#[test]
fn delegation_counts_prove_single_root_listener() {
    let mut d: EventDelegator<String> = EventDelegator::new();
    for i in 0..100 {
        d.register("click", &format!("h{i}"), format!("handler{i}"));
    }
    assert_eq!(d.binding_count(), 100);
    assert_eq!(d.root_listener_count(), 1, "100 buttons must still need 1 root listener");
}
