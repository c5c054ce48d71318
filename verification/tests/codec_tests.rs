use dialog_clicker::codec::from_json;
use dialog_clicker::codec::load_or_default;
use dialog_clicker::codec::to_json;
use dialog_clicker::config::Binding;
use dialog_clicker::config::ClickType;
use dialog_clicker::config::Config;
use dialog_clicker::config::CustomBinding;

fn binding_eq(a: &Binding, b: &Binding) -> bool {
    a.x == b.x && a.y == b.y && a.click_type == b.click_type
}

fn config_eq(a: &Config, b: &Config) -> bool {
    a.dialogs.len() == b.dialogs.len()
        && a.dialogs.iter().zip(b.dialogs.iter()).all(|(x, y)| binding_eq(x, y))
        && binding_eq(&a.yes, &b.yes)
        && binding_eq(&a.no, &b.no)
        && a.custom.len() == b.custom.len()
        && a
            .custom
            .iter()
            .zip(b.custom.iter())
            .all(|(x, y)| x.name == y.name && binding_eq(&x.binding, &y.binding))
        && a.next_custom_id == b.next_custom_id
}

#[test]
fn default_config_serializes_to_documented_fields() {
    let s = to_json(&Config::default());
    let mut expected = String::from("{\"dialogs\":[");
    let ys = [-280, -232, -184, -136, -88, -40, 8, 56, 104];
    for (i, y) in ys.iter().enumerate() {
        if i > 0 {
            expected.push(',');
        }
        expected += &format!("{{\"coords\":[-260,{}],\"click_type\":\"Left\"}}", y);
    }
    expected += "],\"yes\":{\"coords\":[0,54],\"click_type\":\"Left\"},";
    expected += "\"no\":{\"coords\":[130,54],\"click_type\":\"Left\"},";
    expected += "\"custom\":[],\"next_custom_id\":1}";
    assert_eq!(s, expected);
}

#[test]
fn round_trip_default() {
    let c = Config::default();
    let parsed = from_json(&to_json(&c)).unwrap();
    assert!(config_eq(&parsed, &c));
}

#[test]
fn round_trip_unicode_names_boundary_coords_both_kinds() {
    let mut c = Config::default();
    c.dialogs[0] = Binding { x: -32768, y: 32767, click_type: ClickType::Right };
    c.dialogs[8] = Binding { x: i32::MIN, y: i32::MAX, click_type: ClickType::Left };
    c.yes = Binding { x: -1, y: 0, click_type: ClickType::Right };
    c.custom.push(CustomBinding {
        name: "übermäßig 日本語 🖱️".to_string(),
        binding: Binding { x: -32768, y: 32767, click_type: ClickType::Right },
    });
    c.custom.push(CustomBinding {
        name: "with \"quotes\" and \\backslash\\".to_string(),
        binding: Binding { x: 1, y: -1, click_type: ClickType::Left },
    });
    c.next_custom_id = 4294967295;
    let text = to_json(&c);
    let parsed = from_json(&text).unwrap();
    assert!(config_eq(&parsed, &c));
}

#[test]
fn corrupt_text_is_rejected() {
    let c = Config::default();
    let good = to_json(&c);
    // truncation
    assert!(from_json(&good[..good.len() - 1]).is_none());
    assert!(from_json(&good[..10]).is_none());
    // garbage
    assert!(from_json("").is_none());
    assert!(from_json("not json at all").is_none());
    assert!(from_json("{}").is_none());
    // trailing garbage
    let mut long = good.clone();
    long.push('x');
    assert!(from_json(&long).is_none());
}

#[test]
fn duplicate_or_empty_names_are_rejected_on_load() {
    let mut c = Config::default();
    c.custom.push(CustomBinding {
        name: "same".to_string(),
        binding: Binding { x: 0, y: 0, click_type: ClickType::Left },
    });
    c.custom.push(CustomBinding {
        name: "same".to_string(),
        binding: Binding { x: 1, y: 1, click_type: ClickType::Left },
    });
    assert!(from_json(&to_json(&c)).is_none());
    let mut c2 = Config::default();
    c2.custom.push(CustomBinding {
        name: String::new(),
        binding: Binding { x: 0, y: 0, click_type: ClickType::Left },
    });
    assert!(from_json(&to_json(&c2)).is_none());
}

#[test]
fn corrupt_file_loads_the_default_and_writes_back() {
    let junk = "{\"dialogs\":[{\"coo".to_string();
    let (c, must_write) = load_or_default(Some(&junk));
    assert!(must_write);
    assert!(config_eq(&c, &Config::default()));

    let (c2, must_write2) = load_or_default(None);
    assert!(must_write2);
    assert!(config_eq(&c2, &Config::default()));
}

#[test]
fn intact_file_loads_as_stored_without_rewrite() {
    let mut stored = Config::default();
    stored.add_custom();
    stored.set_fixed_offset(dialog_clicker::config::FixedSlot::Yes, 9, 9);
    let text = to_json(&stored);
    let (c, must_write) = load_or_default(Some(&text));
    assert!(!must_write);
    assert!(config_eq(&c, &stored));
}

#[test]
fn whitespace_formatted_file_loads_without_reset() {
    // A file written with newlines and spaces between tokens, as a pretty
    // printer would, still loads; whitespace inside names is untouched.
    let mut stored = Config::default();
    stored.custom.push(CustomBinding {
        name: "New Macro 1".to_string(),
        binding: Binding { x: 3, y: 4, click_type: ClickType::Right },
    });
    let canonical = to_json(&stored);
    let mut pretty = String::new();
    let mut in_str = false;
    let mut esc = false;
    for ch in canonical.chars() {
        pretty.push(ch);
        if in_str {
            if esc {
                esc = false;
            } else if ch == '\\' {
                esc = true;
            } else if ch == '"' {
                in_str = false;
            }
        } else {
            if ch == '"' {
                in_str = true;
            }
            if !in_str && (ch == '{' || ch == '[' || ch == ',' || ch == ':') {
                pretty.push('\n');
                pretty.push(' ');
                pretty.push(' ');
            }
        }
    }
    assert_ne!(pretty, canonical);
    assert!(from_json(&pretty).is_none()); // the strict parser alone rejects it
    let (c, must_write) = load_or_default(Some(&pretty));
    assert!(!must_write);
    assert!(config_eq(&c, &stored));
    assert_eq!(c.custom[0].name, "New Macro 1");
}

#[test]
fn generated_names_format() {
    let n = dialog_clicker::config::make_macro_name(42);
    assert_eq!(n, "New Macro 42");
    let n0 = dialog_clicker::config::make_macro_name(4294967295);
    assert_eq!(n0, "New Macro 4294967295");
}
