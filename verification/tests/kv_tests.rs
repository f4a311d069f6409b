use uring::kv::{same_bytes, Event, PSEvent, Service, Store};

fn b(s: &str) -> Vec<u8> {
    s.as_bytes().to_vec()
}

fn s(x: &str) -> String {
    x.to_string()
}

#[test]
fn get_of_nothing_is_nothing() {
    let mut service = Service::new(0);
    let mut store = Store::new();
    assert_eq!(service.execute(&mut store, Event::Get { key: b("k") }), (None, None));
}

#[test]
fn put_returns_the_value_that_was_there() {
    let mut service = Service::new(7);
    let mut store = Store::new();
    let (answer, msg) = service.execute(&mut store, Event::Put { key: b("k"), value: b("v1") });
    assert_eq!(answer, None);
    assert_eq!(msg, Some(PSEvent::Put { scope: 7, key: s("k"), new: s("v1"), old: None }));
    let (answer, msg) = service.execute(&mut store, Event::Put { key: b("k"), value: b("v2") });
    assert_eq!(answer, Some(b("\"v1\"")));
    assert_eq!(msg, Some(PSEvent::Put { scope: 7, key: s("k"), new: s("v2"), old: Some(s("v1")) }));
    assert_eq!(service.execute(&mut store, Event::Get { key: b("k") }), (Some(b("\"v2\"")), None));
    assert_eq!(store.get(7, &b("k")), Some(b("v2")));
}

#[test]
fn answers_are_json_strings() {
    let mut service = Service::new(0);
    let mut store = Store::new();
    service.execute(&mut store, Event::Put { key: b("k"), value: b("say \"hi\"\n") });
    let (answer, _) = service.execute(&mut store, Event::Get { key: b("k") });
    assert_eq!(answer, Some(b("\"say \\\"hi\\\"\\n\"")));
}

#[test]
fn cas_swaps_where_the_check_holds() {
    let mut service = Service::new(1);
    let mut store = Store::new();
    service.execute(&mut store, Event::Put { key: b("k"), value: b("a") });
    let (answer, msg) = service.execute(
        &mut store,
        Event::Cas { key: b("k"), check_value: b("a"), store_value: b("b") },
    );
    assert_eq!(answer, Some(b("\"b\"")));
    assert_eq!(msg, Some(PSEvent::Cas { scope: 1, key: s("k"), new: s("b"), old: s("a") }));
    assert_eq!(store.get(1, &b("k")), Some(b("b")));
}

#[test]
fn cas_conflict_changes_nothing() {
    let mut service = Service::new(1);
    let mut store = Store::new();
    service.execute(&mut store, Event::Put { key: b("k"), value: b("a") });
    let (answer, msg) = service.execute(
        &mut store,
        Event::Cas { key: b("k"), check_value: b("x"), store_value: b("b") },
    );
    assert_eq!(answer, Some(b("\"a\"")));
    assert_eq!(
        msg,
        Some(PSEvent::CasConflict { scope: 1, key: s("k"), new: s("b"), conflict: Some(s("a")) })
    );
    assert_eq!(store.get(1, &b("k")), Some(b("a")));
    let (answer, msg) = service.execute(
        &mut store,
        Event::Cas { key: b("none"), check_value: b("x"), store_value: b("b") },
    );
    assert_eq!(answer, None);
    assert_eq!(
        msg,
        Some(PSEvent::CasConflict { scope: 1, key: s("none"), new: s("b"), conflict: None })
    );
    assert_eq!(store.get(1, &b("none")), None);
}

#[test]
fn delete_returns_the_value_that_was_there() {
    let mut service = Service::new(2);
    let mut store = Store::new();
    service.execute(&mut store, Event::Put { key: b("k"), value: b("a") });
    service.execute(&mut store, Event::Put { key: b("j"), value: b("c") });
    let (answer, msg) = service.execute(&mut store, Event::Delete { key: b("k") });
    assert_eq!(answer, Some(b("\"a\"")));
    assert_eq!(msg, Some(PSEvent::Delete { scope: 2, key: s("k"), old: Some(s("a")) }));
    assert_eq!(store.get(2, &b("k")), None);
    assert_eq!(store.get(2, &b("j")), Some(b("c")));
    let (answer, msg) = service.execute(&mut store, Event::Delete { key: b("k") });
    assert_eq!(answer, None);
    assert_eq!(msg, Some(PSEvent::Delete { scope: 2, key: s("k"), old: None }));
}

#[test]
fn scopes_are_apart() {
    let mut one = Service::new(1);
    let mut two = Service::new(2);
    let mut store = Store::new();
    one.execute(&mut store, Event::Put { key: b("k"), value: b("a") });
    assert_eq!(two.execute(&mut store, Event::Get { key: b("k") }), (None, None));
    two.execute(&mut store, Event::Put { key: b("k"), value: b("b") });
    assert_eq!(store.get(1, &b("k")), Some(b("a")));
    assert_eq!(store.get(2, &b("k")), Some(b("b")));
}

#[test]
fn bytes_that_are_no_text_are_kept_and_shown_empty() {
    let mut service = Service::new(0);
    let mut store = Store::new();
    let raw = vec![0xff, 0xfe];
    let (_, msg) = service.execute(&mut store, Event::Put { key: b("k"), value: raw.clone() });
    assert_eq!(msg, Some(PSEvent::Put { scope: 0, key: s("k"), new: s(""), old: None }));
    assert_eq!(store.get(0, &b("k")), Some(raw));
    assert_eq!(service.execute(&mut store, Event::Get { key: b("k") }), (None, None));
}

#[test]
fn only_get_is_local() {
    let service = Service::new(0);
    assert_eq!(service.is_local(&Event::Get { key: b("k") }), Ok(true));
    assert_eq!(service.is_local(&Event::Put { key: b("k"), value: b("v") }), Ok(false));
    assert_eq!(
        service.is_local(&Event::Cas { key: b("k"), check_value: b("a"), store_value: b("b") }),
        Ok(false)
    );
    assert_eq!(service.is_local(&Event::Delete { key: b("k") }), Ok(false));
}

#[test]
fn bytes_are_compared_whole() {
    assert!(same_bytes(&b("abc"), &b("abc")));
    assert!(!same_bytes(&b("abc"), &b("abd")));
    assert!(!same_bytes(&b("abc"), &b("ab")));
    assert!(same_bytes(&vec![], &vec![]));
}
