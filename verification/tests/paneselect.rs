use pane_bridge::paneselect::{
    follow_up, PaneSelector, SelectorAction, SelectorKey, SelectorMods, SelectorStep,
};

fn selector(labels: &[&str]) -> PaneSelector {
    let mut selector = PaneSelector::new(String::new(), "asdf".to_string());
    selector.set_labels(labels.iter().map(|l| l.to_string()).collect());
    selector
}

#[test]
fn new_prefers_the_given_alphabet() {
    let selector = PaneSelector::new("xyz".to_string(), "asdf".to_string());
    assert_eq!(selector.alphabet_str(), "xyz");
    let selector = PaneSelector::new(String::new(), "asdf".to_string());
    assert_eq!(selector.alphabet_str(), "asdf");
    assert_eq!(selector.selection_str(), "");
    assert_eq!(selector.label_count(), 0);
    assert!(selector.needs_layout());
}

#[test]
fn layout_is_needed_until_labels_are_set_and_after_reconfigure() {
    let mut selector = PaneSelector::new(String::new(), "asdf".to_string());
    assert!(selector.needs_layout());
    selector.set_labels(vec!["a".to_string(), "s".to_string()]);
    assert!(!selector.needs_layout());
    assert_eq!(selector.label_count(), 2);
    selector.reconfigure();
    assert!(selector.needs_layout());
    assert_eq!(selector.label_count(), 2);
}

#[test]
fn escape_cancels() {
    let mut selector = selector(&["a", "s"]);
    assert_eq!(selector.key_down(SelectorKey::Escape, SelectorMods::Plain), SelectorAction::Cancel);
    assert_eq!(selector.key_down(SelectorKey::Escape, SelectorMods::Shift), SelectorAction::Stay);
}

#[test]
fn typing_a_label_activates_its_pane() {
    let mut selector = selector(&["aa", "as", "sa"]);
    assert_eq!(selector.key_down(SelectorKey::Char('a'), SelectorMods::Plain), SelectorAction::Stay);
    assert_eq!(selector.selection_str(), "a");
    assert_eq!(
        selector.key_down(SelectorKey::Char('s'), SelectorMods::Plain),
        SelectorAction::Activate(1)
    );
    assert_eq!(selector.selection_str(), "as");
}

#[test]
fn shifted_character_is_typed_as_given() {
    let mut selector = selector(&["A", "a"]);
    assert_eq!(
        selector.key_down(SelectorKey::Char('A'), SelectorMods::Shift),
        SelectorAction::Activate(0)
    );
}

#[test]
fn first_of_equal_labels_wins() {
    let mut selector = selector(&["x", "q", "q"]);
    assert_eq!(
        selector.key_down(SelectorKey::Char('q'), SelectorMods::Plain),
        SelectorAction::Activate(1)
    );
}

#[test]
fn backspace_and_ctrl_u_edit_the_selection() {
    let mut selector = selector(&["abc"]);
    selector.key_down(SelectorKey::Char('a'), SelectorMods::Plain);
    selector.key_down(SelectorKey::Char('x'), SelectorMods::Plain);
    assert_eq!(selector.key_down(SelectorKey::Backspace, SelectorMods::Plain), SelectorAction::Stay);
    assert_eq!(selector.selection_str(), "a");
    selector.key_down(SelectorKey::Char('b'), SelectorMods::Plain);
    assert_eq!(selector.key_down(SelectorKey::Char('u'), SelectorMods::Ctrl), SelectorAction::Stay);
    assert_eq!(selector.selection_str(), "");
    assert_eq!(selector.key_down(SelectorKey::Backspace, SelectorMods::Plain), SelectorAction::Stay);
    assert_eq!(selector.selection_str(), "");
}

#[test]
fn other_keys_change_nothing() {
    let mut selector = selector(&["a"]);
    selector.key_down(SelectorKey::Char('z'), SelectorMods::Plain);
    for (key, mods) in [
        (SelectorKey::Other, SelectorMods::Plain),
        (SelectorKey::Char('a'), SelectorMods::Ctrl),
        (SelectorKey::Char('a'), SelectorMods::Other),
        (SelectorKey::Backspace, SelectorMods::Ctrl),
        (SelectorKey::Escape, SelectorMods::Other),
    ] {
        assert_eq!(selector.key_down(key, mods), SelectorAction::Stay);
        assert_eq!(selector.selection_str(), "z");
    }
    assert!(!selector.perform_assignment());
}

#[test]
fn follow_up_of_cancel_and_stay() {
    for flags in 0..8u8 {
        let (tab, overlay, pane) = (flags & 1 != 0, flags & 2 != 0, flags & 4 != 0);
        assert_eq!(
            follow_up(SelectorAction::Cancel, tab, overlay, pane),
            SelectorStep { activate: None, close: true }
        );
        assert_eq!(
            follow_up(SelectorAction::Stay, tab, overlay, pane),
            SelectorStep { activate: None, close: false }
        );
    }
}

#[test]
fn follow_up_of_a_match() {
    let matched = SelectorAction::Activate(4);
    assert_eq!(follow_up(matched, true, false, true), SelectorStep { activate: Some(4), close: true });
    assert_eq!(follow_up(matched, true, true, true), SelectorStep { activate: None, close: true });
    assert_eq!(follow_up(matched, true, false, false), SelectorStep { activate: None, close: true });
    assert_eq!(follow_up(matched, true, true, false), SelectorStep { activate: None, close: true });
    for (overlay, pane) in [(false, false), (false, true), (true, false), (true, true)] {
        assert_eq!(
            follow_up(matched, false, overlay, pane),
            SelectorStep { activate: None, close: false }
        );
    }
}
