use dialog_clicker::config::Config;
use dialog_clicker::registry::RegAction;
use dialog_clicker::registry::RegistryAdapter;
use std::collections::BTreeSet;

fn registered_set(a: &RegistryAdapter) -> BTreeSet<String> {
    a.registered.iter().cloned().collect()
}

fn live_set(a: &RegistryAdapter) -> BTreeSet<String> {
    let mut s: BTreeSet<String> = BTreeSet::new();
    for i in 1..=9 {
        s.insert(format!("Dialog {}", i));
    }
    s.insert("Dialog Yes".to_string());
    s.insert("Dialog No".to_string());
    for cb in &a.config.custom {
        s.insert(format!("Dialog Custom {}", cb.name));
    }
    s
}

#[test]
fn activation_registers_fixed_ids_with_chords() {
    let (a, actions) = RegistryAdapter::activate(Config::default());
    assert_eq!(actions.len(), 11);
    let expected = [
        ("Dialog 1", "ALT+1"),
        ("Dialog 2", "ALT+2"),
        ("Dialog 3", "ALT+3"),
        ("Dialog 4", "ALT+4"),
        ("Dialog 5", "ALT+5"),
        ("Dialog 6", "ALT+6"),
        ("Dialog 7", "ALT+7"),
        ("Dialog 8", "ALT+8"),
        ("Dialog 9", "ALT+9"),
        ("Dialog Yes", "ALT+S"),
        ("Dialog No", "ALT+F"),
    ];
    for (act, (id, chord)) in actions.iter().zip(expected.iter()) {
        match act {
            RegAction::Register { id: i, default_chord: c } => {
                assert_eq!(i, id);
                assert_eq!(c, chord);
            },
            _ => panic!("activation must only register"),
        }
    }
    assert_eq!(registered_set(&a), live_set(&a));
}

#[test]
fn activation_registers_existing_customs_without_chord() {
    let mut c = Config::default();
    c.add_custom();
    c.add_custom();
    let (a, actions) = RegistryAdapter::activate(c);
    assert_eq!(actions.len(), 13);
    match &actions[11] {
        RegAction::Register { id, default_chord } => {
            assert_eq!(id, "Dialog Custom New Macro 1");
            assert_eq!(default_chord, "");
        },
        _ => panic!("expected a registration"),
    }
    assert_eq!(registered_set(&a), live_set(&a));
}

#[test]
fn registrations_track_every_edit() {
    let (mut a, _) = RegistryAdapter::activate(Config::default());
    let (n1, acts) = a.add_custom();
    assert_eq!(n1, "New Macro 1");
    assert_eq!(acts.len(), 1);
    assert_eq!(registered_set(&a), live_set(&a));

    let (n2, _) = a.add_custom();
    assert_eq!(registered_set(&a), live_set(&a));

    let acts = a.rename_custom(&n1, &"Salvage".to_string()).unwrap();
    match (&acts[0], &acts[1]) {
        (
            RegAction::Unregister { id: old },
            RegAction::Register { id: new, default_chord },
        ) => {
            assert_eq!(old, "Dialog Custom New Macro 1");
            assert_eq!(new, "Dialog Custom Salvage");
            assert_eq!(default_chord, "");
        },
        _ => panic!("rename must unregister the old id, then register the new one"),
    }
    assert_eq!(registered_set(&a), live_set(&a));

    let acts = a.remove_custom(&n2).unwrap();
    assert_eq!(acts.len(), 1);
    match &acts[0] {
        RegAction::Unregister { id } => assert_eq!(id, "Dialog Custom New Macro 2"),
        _ => panic!("remove must unregister"),
    }
    assert_eq!(registered_set(&a), live_set(&a));
}

#[test]
fn rejected_rename_keeps_registrations() {
    let (mut a, _) = RegistryAdapter::activate(Config::default());
    let (n1, _) = a.add_custom();
    let (n2, _) = a.add_custom();
    let before = registered_set(&a);
    assert!(a.rename_custom(&n1, &n2).is_err());
    assert_eq!(registered_set(&a), before);
    assert!(a.rename_custom(&n1, &String::new()).is_err());
    assert_eq!(registered_set(&a), before);
    assert_eq!(registered_set(&a), live_set(&a));
}

#[test]
fn deactivation_unregisters_everything() {
    let (mut a, _) = RegistryAdapter::activate(Config::default());
    a.add_custom();
    let acts = a.deactivate();
    assert_eq!(acts.len(), a.registered.len());
    let mut undone: BTreeSet<String> = BTreeSet::new();
    for act in &acts {
        match act {
            RegAction::Unregister { id } => {
                undone.insert(id.clone());
            },
            _ => panic!("deactivation must only unregister"),
        }
    }
    assert_eq!(undone, registered_set(&a));
}
