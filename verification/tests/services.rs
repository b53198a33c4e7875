use icap_parser::{ForwardService, Json};
use std::time::Duration;

#[test]
fn forward_service_default_policy() {
    let svc: ForwardService<Vec<u8>> = ForwardService::new(vec![1u8, 2, 3]);
    let (dest, respect, delay) = svc.into_parts();
    assert_eq!(dest, vec![1u8, 2, 3]);
    assert!(!respect);
    assert!(delay.is_none());
}

#[test]
fn forward_service_respect_shutdown() {
    let svc = ForwardService::new(String::from("dest")).respect_shutdown(Some(
        Duration::from_secs(5),
    ));
    let (dest, respect, delay) = svc.into_parts();
    assert_eq!(dest, "dest");
    assert!(respect);
    assert_eq!(delay, Some(Duration::from_secs(5)));

    let svc = ForwardService::new(0u32).respect_shutdown(None);
    let (_, respect, delay) = svc.into_parts();
    assert!(respect);
    assert!(delay.is_none());
}

#[test]
fn json_wraps_and_unwraps() {
    let j = Json(41u64);
    assert_eq!(j.into_inner(), 41);

    let j: Json<&str> = Json::from("payload");
    assert_eq!(j.0, "payload");
    assert_eq!(j.into_inner(), "payload");
}
