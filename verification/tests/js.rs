use helix::runtime::js::{evaluated, Deadline, JsError, JsValue};

#[test]
fn undefined_and_null_come_to_nothing() {
    assert_eq!(evaluated(Ok(JsValue::Undefined)), Ok(None));
    assert_eq!(evaluated(Ok(JsValue::Null)), Ok(None));
    assert_eq!(evaluated(Ok(JsValue::Text("3".into()))), Ok(Some("3".into())));
    let e = JsError("bad".into());
    assert_eq!(e.message(), "bad");
    assert_eq!(evaluated(Err(e.clone())), Err(e));
}

#[test]
fn a_budget_is_spent_at_its_end() {
    let d = Deadline::after(1000, 200);
    assert!(!d.is_due(1199));
    assert!(d.is_due(1200));
    assert!(d.is_due(u64::MAX));
    assert!(!Deadline::unset().is_due(u64::MAX));
}
