use dialog_clicker::config::Binding;
use dialog_clicker::config::ClickType;
use dialog_clicker::config::Config;
use dialog_clicker::config::FixedSlot;
use dialog_clicker::config::StoreError;

fn binding_eq(a: &Binding, b: &Binding) -> bool {
    a.x == b.x && a.y == b.y && a.click_type == b.click_type
}

fn config_eq(a: &Config, b: &Config) -> bool {
    a.dialogs.len() == b.dialogs.len()
        && a.dialogs.iter().zip(b.dialogs.iter()).all(|(x, y)| binding_eq(x, y))
        && binding_eq(&a.yes, &b.yes)
        && binding_eq(&a.no, &b.no)
        && a.custom.len() == b.custom.len()
        && a
            .custom
            .iter()
            .zip(b.custom.iter())
            .all(|(x, y)| x.name == y.name && binding_eq(&x.binding, &y.binding))
        && a.next_custom_id == b.next_custom_id
}

#[test]
fn default_config_values() {
    let c = Config::default();
    assert_eq!(c.dialogs.len(), 9);
    for (i, d) in c.dialogs.iter().enumerate() {
        assert_eq!(d.x, -260);
        assert_eq!(d.y, -280 + 48 * i as i32);
        assert_eq!(d.click_type, ClickType::Left);
    }
    assert_eq!((c.yes.x, c.yes.y), (0, 54));
    assert_eq!((c.no.x, c.no.y), (130, 54));
    assert!(c.custom.is_empty());
    assert_eq!(c.next_custom_id, 1);
    assert_eq!(ClickType::default(), ClickType::Left);
}

#[test]
fn add_custom_generates_distinct_names() {
    let mut c = Config::default();
    let n1 = c.add_custom();
    assert_eq!(n1, "New Macro 1");
    let n2 = c.add_custom();
    assert_eq!(n2, "New Macro 2");
    assert_ne!(n1, n2);
    assert_eq!(c.custom.len(), 2);
    assert_eq!(c.custom[0].binding.x, 0);
    assert_eq!(c.custom[0].binding.y, 0);
    assert_eq!(c.custom[0].binding.click_type, ClickType::Left);
    assert_eq!(c.next_custom_id, 3);
}

#[test]
fn add_custom_skips_taken_names() {
    let mut c = Config::default();
    let n1 = c.add_custom();
    let n2 = c.add_custom();
    assert_eq!((n1.as_str(), n2.as_str()), ("New Macro 1", "New Macro 2"));
    // free the middle name, keep the second: the scan reuses the gap
    c.remove_custom(&"New Macro 1".to_string()).unwrap();
    let n3 = c.add_custom();
    assert_eq!(n3, "New Macro 1");
    let n4 = c.add_custom();
    assert_eq!(n4, "New Macro 3");
}

#[test]
fn rename_to_duplicate_rejected_and_store_unchanged() {
    let mut c = Config::default();
    let a = c.add_custom();
    let b = c.add_custom();
    let before = c.clone();
    let r = c.rename_custom(&a, &b);
    assert_eq!(r, Err(StoreError::DuplicateName));
    assert!(config_eq(&c, &before));
}

#[test]
fn rename_to_empty_rejected_and_store_unchanged() {
    let mut c = Config::default();
    let a = c.add_custom();
    let before = c.clone();
    let r = c.rename_custom(&a, &String::new());
    assert_eq!(r, Err(StoreError::EmptyName));
    assert!(config_eq(&c, &before));
}

#[test]
fn rename_missing_rejected() {
    let mut c = Config::default();
    let r = c.rename_custom(&"ghost".to_string(), &"anything".to_string());
    assert_eq!(r, Err(StoreError::NoSuchBinding));
}

#[test]
fn rename_success_changes_only_the_name() {
    let mut c = Config::default();
    let a = c.add_custom();
    let r = c.rename_custom(&a, &"Open chest".to_string());
    assert_eq!(r, Ok(()));
    assert_eq!(c.custom[0].name, "Open chest");
    assert_eq!(c.custom[0].binding.x, 0);
    // renaming an entry to its own name succeeds
    let r2 = c.rename_custom(&"Open chest".to_string(), &"Open chest".to_string());
    assert_eq!(r2, Ok(()));
    assert_eq!(c.custom[0].name, "Open chest");
}

#[test]
fn remove_custom_removes_exactly_one() {
    let mut c = Config::default();
    let a = c.add_custom();
    let b = c.add_custom();
    assert_eq!(c.remove_custom(&a), Ok(()));
    assert_eq!(c.custom.len(), 1);
    assert_eq!(c.custom[0].name, b);
    assert_eq!(c.remove_custom(&a), Err(StoreError::NoSuchBinding));
}

#[test]
fn set_fixed_offset_targets_one_slot() {
    let mut c = Config::default();
    c.set_fixed_offset(FixedSlot::Dialog(3), 11, -22);
    assert_eq!((c.dialogs[3].x, c.dialogs[3].y), (11, -22));
    assert_eq!((c.dialogs[2].x, c.dialogs[2].y), (-260, -280 + 96));
    c.set_fixed_offset(FixedSlot::Yes, 1, 2);
    assert_eq!((c.yes.x, c.yes.y), (1, 2));
    c.set_fixed_offset(FixedSlot::No, -3, -4);
    assert_eq!((c.no.x, c.no.y), (-3, -4));
}

#[test]
fn set_click_kind_on_fixed_and_custom() {
    let mut c = Config::default();
    c.set_fixed_click_kind(FixedSlot::Dialog(0), ClickType::Right);
    assert_eq!(c.dialogs[0].click_type, ClickType::Right);
    let a = c.add_custom();
    c.set_custom_click_kind(&a, ClickType::Right).unwrap();
    assert_eq!(c.custom[0].binding.click_type, ClickType::Right);
    c.set_custom_offset(&a, 40, 50).unwrap();
    assert_eq!((c.custom[0].binding.x, c.custom[0].binding.y), (40, 50));
    assert_eq!(
        c.set_custom_offset(&"ghost".to_string(), 1, 1),
        Err(StoreError::NoSuchBinding)
    );
}
