use tbd::menu::{m, m_call, mm, sub_menu, EntryStep, Menu, MenuEntry, Selection};

fn leaf(menu: &Menu<u32>, i: usize) -> u32 {
    match menu.run_entry(i) {
        EntryStep::Call(f) => *f,
        EntryStep::Enter(_, _) => panic!("expected an action"),
    }
}

#[test]
fn menus_keep_labels_and_order() {
    let inner = m("Are you sure?", "No", vec![("Yes", m_call(7u32))]);
    assert!(inner.auto_back);
    let main = mm("test", "Exit", vec![("First", m_call(1u32)), ("Pick", sub_menu(inner))]);
    assert!(!main.auto_back);
    assert_eq!(main.title_txt, "test");
    assert_eq!(main.back_txt, "Exit");
    let labels: Vec<&str> = main.entries.iter().map(|e| e.0.as_str()).collect();
    assert_eq!(labels, vec!["First", "Pick"]);
    assert_eq!(leaf(&main, 1), 1);
    match main.run_entry(2) {
        EntryStep::Enter(sub, back) => {
            assert!(!back);
            assert_eq!(sub.title_txt, "Are you sure?");
            assert_eq!(leaf(sub, 1), 7);
        }
        EntryStep::Call(_) => panic!("expected a nested menu"),
    }
    assert!(matches!(main.entries[1].1, MenuEntry::SubMenu(_)));
}

#[test]
fn selection_of_typed_numbers() {
    let menu = m("t", "b", vec![("a", m_call(0u8)), ("c", m_call(1u8))]);
    assert_eq!(menu.select(0), Selection::Back);
    assert_eq!(menu.select(1), Selection::Entry(1));
    assert_eq!(menu.select(2), Selection::Entry(2));
    assert_eq!(menu.select(3), Selection::Ignore);
}

#[test]
fn nested_menu_in_auto_back_menu_reports_leave() {
    let inner = m("i", "b", vec![("x", m_call(3u8))]);
    let outer = m("o", "b", vec![("in", sub_menu(inner))]);
    assert!(matches!(outer.run_entry(1), EntryStep::Enter(_, true)));
}
