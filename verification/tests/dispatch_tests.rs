use dialog_clicker::config::ClickType;
use dialog_clicker::config::Config;
use dialog_clicker::dispatch::handle_key_event;
use dialog_clicker::dispatch::resolve;

#[test]
fn release_never_fires() {
    let c = Config::default();
    assert!(handle_key_event(&c, "Dialog 1", true).is_none());
    assert!(handle_key_event(&c, "Dialog Yes", true).is_none());
    // a release immediately after a press on the same identifier still fires nothing
    assert!(handle_key_event(&c, "Dialog 3", false).is_some());
    assert!(handle_key_event(&c, "Dialog 3", true).is_none());
}

#[test]
fn release_never_fires_for_custom_ids() {
    let mut c = Config::default();
    let n = c.add_custom();
    let id = format!("Dialog Custom {}", n);
    assert!(handle_key_event(&c, &id, false).is_some());
    assert!(handle_key_event(&c, &id, true).is_none());
}

#[test]
fn press_resolves_fixed_identifiers() {
    let c = Config::default();
    let b = handle_key_event(&c, "Dialog 3", false).unwrap();
    assert_eq!((b.x, b.y), (-260, -280 + 96));
    let y = handle_key_event(&c, "Dialog Yes", false).unwrap();
    assert_eq!((y.x, y.y), (0, 54));
    let n = handle_key_event(&c, "Dialog No", false).unwrap();
    assert_eq!((n.x, n.y), (130, 54));
    let d9 = handle_key_event(&c, "Dialog 9", false).unwrap();
    assert_eq!((d9.x, d9.y), (-260, -280 + 48 * 8));
}

#[test]
fn press_resolves_custom_identifiers_fresh() {
    let mut c = Config::default();
    let n = c.add_custom();
    c.set_custom_offset(&n, 77, -88).unwrap();
    c.set_custom_click_kind(&n, ClickType::Right).unwrap();
    let b = resolve(&c, &format!("Dialog Custom {}", n)).unwrap();
    assert_eq!((b.x, b.y, b.click_type), (77, -88, ClickType::Right));
    // after a rename the old identifier is stale; the new one resolves
    c.rename_custom(&n, &"Salvage".to_string()).unwrap();
    assert!(resolve(&c, &format!("Dialog Custom {}", n)).is_none());
    let b2 = resolve(&c, "Dialog Custom Salvage").unwrap();
    assert_eq!((b2.x, b2.y), (77, -88));
}

#[test]
fn unknown_identifiers_are_ignored() {
    let c = Config::default();
    assert!(resolve(&c, "Dialog 0").is_none());
    assert!(resolve(&c, "Dialog 10").is_none());
    assert!(resolve(&c, "Dialog Custom ghost").is_none());
    assert!(resolve(&c, "Dialog Custom ").is_none());
    assert!(resolve(&c, "").is_none());
    assert!(resolve(&c, "something else").is_none());
}
