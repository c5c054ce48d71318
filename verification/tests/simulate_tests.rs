use dialog_clicker::config::ClickType;
use dialog_clicker::simulate::plan_click;
use dialog_clicker::simulate::InputEvent;

#[test]
fn scenario_1920_1080_click_plan() {
    // screen 1920x1080, cursor at (500,500), binding offset (-260,-280), left
    // click: target pixel (960-260, 540-280) = (700, 260); normalized with
    // round(pixel * 65535 / dim): (23893, 15777); the restore move carries
    // the +1 bias: (17066+1, 30340+1).
    let events = plan_click(-260, -280, ClickType::Left, 1920, 1080, 500, 500).unwrap();
    assert_eq!(events.len(), 4);
    assert_eq!(events[0], InputEvent::MoveAbs { x: 23893, y: 15777 });
    assert_eq!(events[1], InputEvent::ButtonDown { kind: ClickType::Left });
    assert_eq!(events[2], InputEvent::ButtonUp { kind: ClickType::Left });
    assert_eq!(events[3], InputEvent::MoveAbs { x: 17067, y: 30341 });
}

#[test]
fn zero_screen_plans_nothing() {
    assert!(plan_click(0, 0, ClickType::Left, 0, 1080, 5, 5).is_none());
    assert!(plan_click(0, 0, ClickType::Left, 1920, 0, 5, 5).is_none());
    assert!(plan_click(0, 0, ClickType::Left, 0, 0, 5, 5).is_none());
}

#[test]
fn right_click_uses_right_button() {
    let events = plan_click(0, 0, ClickType::Right, 1920, 1080, 0, 0).unwrap();
    assert_eq!(events[1], InputEvent::ButtonDown { kind: ClickType::Right });
    assert_eq!(events[2], InputEvent::ButtonUp { kind: ClickType::Right });
}

#[test]
fn center_of_screen_normalizes_to_half_range() {
    // target pixel (960, 540): round(960 * 65535 / 1920) = round(32767.5) = 32768
    let events = plan_click(0, 0, ClickType::Left, 1920, 1080, 0, 0).unwrap();
    assert_eq!(events[0], InputEvent::MoveAbs { x: 32768, y: 32768 });
    // the original position (0,0) normalizes to 0, plus the +1 restore bias
    assert_eq!(events[3], InputEvent::MoveAbs { x: 1, y: 1 });
}

#[test]
fn offsets_may_leave_the_visible_screen() {
    // no clamping to the 0..65535 range: a target left of the screen goes negative
    let events = plan_click(-2000, 0, ClickType::Left, 1920, 1080, 0, 0).unwrap();
    match events[0] {
        InputEvent::MoveAbs { x, y } => {
            assert!(x < 0);
            assert_eq!(y, 32768);
        },
        _ => panic!("first event must be the move to the target"),
    }
}
