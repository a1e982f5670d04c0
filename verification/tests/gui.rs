use janim_backend::gui::menus::{menus, MenuCallbacks, MenuElement};
use janim_backend::gui::palette::palette_slots;
use janim_backend::gui::timer::TimerHandle;

#[test]
fn new_timer_has_not_fired() {
    let h = TimerHandle::new();
    assert!(!h.timeout());
}

#[test]
fn fired_timer_shows_after_advance() {
    let h = TimerHandle::new();
    h.fire();
    assert!(!h.timeout());
    h.advance();
    assert!(h.timeout());
    h.advance();
    assert!(!h.timeout());
}

#[test]
fn button_keeps_label_and_shortcut() {
    let e: MenuElement<fn() -> u32> = MenuElement::button(String::from("Rebuild"), || 1, Some("Ctrl+L"));
    match e {
        MenuElement::Button(b) => {
            assert_eq!(b.atoms, "Rebuild");
            assert_eq!(b.app_shortcut, Some("Ctrl+L"));
            assert_eq!((b.callback)(), 1);
        }
        MenuElement::Separator => panic!("expected a button"),
    }
}

#[test]
fn callbacks_hold_each_action() {
    let cbs: MenuCallbacks<u8> = MenuCallbacks {
        rebuild: 0,
        export: 1,
        capture: 2,
        set_in_point: 3,
        set_out_point: 4,
        reset_in_out_point: 5,
        clear_font_cache: 6,
        subitem_selector: 7,
        profiler_first: 8,
        profiler_second: 9,
        rich_text_editor: 10,
        font_list: 11,
        color: 12,
        copy_time_point: 13,
    };
    assert_eq!(cbs.export, 1);
    assert_eq!(cbs.copy_time_point, 13);
}

fn numbered_callbacks() -> MenuCallbacks<u8> {
    MenuCallbacks {
        rebuild: 0,
        export: 1,
        capture: 2,
        set_in_point: 3,
        set_out_point: 4,
        reset_in_out_point: 5,
        clear_font_cache: 6,
        subitem_selector: 7,
        profiler_first: 8,
        profiler_second: 9,
        rich_text_editor: 10,
        font_list: 11,
        color: 12,
        copy_time_point: 13,
    }
}

fn entries(elements: &[MenuElement<u8>]) -> Vec<Option<(String, u8, Option<&'static str>)>> {
    elements
        .iter()
        .map(|e| match e {
            MenuElement::Button(b) => Some((b.atoms.clone(), b.callback, b.app_shortcut)),
            MenuElement::Separator => None,
        })
        .collect()
}

#[test]
fn menus_hold_file_and_tools_entries() {
    let m = menus(numbered_callbacks());
    assert_eq!(m.len(), 2);
    assert_eq!(m[0].0, "File");
    assert_eq!(m[1].0, "Tools");
    let b = |s: &str, c: u8, k: Option<&'static str>| Some((String::from(s), c, k));
    assert_eq!(
        entries(&m[0].1),
        vec![
            b("Rebuild", 0, Some("Ctrl+L")),
            None,
            b("Export", 1, Some("Ctrl+S")),
            b("Capture", 2, Some("Ctrl+Alt+S")),
            None,
            b("Set In Point", 3, Some("[")),
            b("Set Out Point", 4, Some("]")),
            b("Reset In/Out Point", 5, None),
            None,
            b("Clear Font Cache", 6, None),
        ]
    );
    assert_eq!(
        entries(&m[1].1),
        vec![
            b("Subitem selector", 7, Some("Ctrl+I")),
            None,
            b("Profiler", 8, None),
            None,
            b("Draw", 9, Some("Ctrl+D")),
            b("Rich text editor", 10, Some("Ctrl+R")),
            b("Font list", 11, Some("Ctrl+F")),
            b("Color", 12, Some("Ctrl+O")),
            None,
            b("Copy time point", 13, Some("T")),
        ]
    );
}

#[test]
fn palette_gives_each_new_id_the_next_slot() {
    assert_eq!(palette_slots(&vec![7, 3, 7, 9, 3, 1], 9), vec![0, 1, 0, 2, 1, 3]);
}

#[test]
fn palette_goes_round() {
    assert_eq!(palette_slots(&vec![5, 6, 7, 5, 8], 3), vec![0, 1, 2, 0, 0]);
    assert_eq!(palette_slots(&Vec::new(), 4), Vec::<usize>::new());
}
