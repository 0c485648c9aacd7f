use redshift::command::PlayerId;
use redshift::interface::{
    backing_style, bars_wanted, fill_bucket, finish_selection, hotkey_actions, plan_bars,
    HotkeyAction, HotkeysPressed, pick_one, press_group_key, Backing, right_click_order, take_sell_click, toggled_pause,
    verdict_line, Candidate, ControlGroups, Outcome, Selection, SellMode, UnitOrder,
};
use redshift::outlook::UnitFacts;

/// A distance as the key it is ordered by.
fn at(priority: u8, distance: f32) -> Candidate {
    Candidate {
        priority,
        distance: distance.to_bits(),
    }
}

#[test]
fn nothing_under_the_pointer_picks_nothing() {
    assert_eq!(pick_one(&[]), None);
}

#[test]
fn the_only_thing_under_the_pointer_wins() {
    assert_eq!(pick_one(&[at(0, 5.0)]), Some(0));
}

#[test]
fn the_nearest_wins_when_priorities_match() {
    let far = at(3, 9.0);
    let near = at(3, 1.0);
    assert_eq!(pick_one(&[far, near]), Some(1));
    assert_eq!(pick_one(&[near, far]), Some(0));
}

#[test]
fn priority_beats_distance() {
    let soldier = at(1, 0.2);
    let tank = at(4, 0.9);
    assert_eq!(pick_one(&[soldier, tank]), Some(1));
    assert_eq!(pick_one(&[tank, soldier]), Some(0));
}

#[test]
fn the_answer_does_not_depend_on_the_order_they_were_found_in() {
    let a = at(2, 3.0);
    assert_eq!(pick_one(&[a, a]), Some(0));
}

#[test]
fn a_selection_is_sorted_and_holds_each_unit_once() {
    let mut selection = Selection::default();
    assert!(selection.is_empty());
    selection.set(vec![9, 3, 9, 1, 3]);
    assert_eq!(selection.units, vec![1, 3, 9]);
    selection.clear();
    assert!(selection.is_empty());
}

#[test]
fn control_groups_file_recall_and_forget() {
    let mut groups = ControlGroups::new();
    groups.assign(2, &[5, 6, 7]);
    assert_eq!(groups.recall(2), vec![5, 6, 7]);
    assert!(groups.recall(0).is_empty());
    groups.assign(99, &[1]);
    assert!(groups.recall(99).is_empty(), "no such group");
    groups.forget_missing(&vec![7, 5]);
    assert_eq!(groups.recall(2), vec![5, 7]);
}

#[test]
fn health_bars_change_colour_at_thirds() {
    assert_eq!(fill_bucket(100), 0);
    assert_eq!(fill_bucket(67), 0);
    assert_eq!(fill_bucket(66), 1);
    assert_eq!(fill_bucket(34), 1);
    assert_eq!(fill_bucket(33), 2);
    assert_eq!(fill_bucket(0), 2);
}

#[test]
fn sell_mode_disarms_after_one_click() {
    let mut sell = SellMode { armed: true };
    assert!(take_sell_click(&mut sell));
    assert!(!take_sell_click(&mut sell));
}

fn field_unit(id: u64, owner: u8, x: i32, y: i32) -> UnitFacts {
    UnitFacts {
        id,
        owner: PlayerId(owner),
        neutral: false,
        alive: true,
        aboard: false,
        visible: true,
        kind: 0,
        cell: (x, y),
        target: None,
    }
}

#[test]
fn number_keys_file_and_recall_groups() {
    let mut groups = ControlGroups::new();
    let mut selection = Selection::default();
    selection.set(vec![7, 3]);
    press_group_key(&mut groups, &mut selection, 2, true);
    assert_eq!(groups.recall(2), vec![3, 7]);
    selection.clear();
    // An empty group leaves the selection alone.
    press_group_key(&mut groups, &mut selection, 4, false);
    assert!(selection.is_empty());
    press_group_key(&mut groups, &mut selection, 2, false);
    assert_eq!(selection.units, vec![3, 7]);
}

#[test]
fn a_right_click_attacks_a_seen_enemy_or_moves() {
    let mut selection = Selection::default();
    selection.set(vec![1, 2]);
    let mut hidden = field_unit(9, 0, 5, 5);
    hidden.visible = false;
    let field = vec![field_unit(1, 1, 5, 5), hidden, field_unit(8, 0, 5, 5), field_unit(7, 0, 5, 5)];
    match right_click_order(&selection, &field, PlayerId(1), (5, 5), true, false) {
        Some(UnitOrder::Attack { units, target }) => {
            assert_eq!(units, vec![1, 2]);
            assert_eq!(target, 8);
        }
        _ => panic!("expected an attack"),
    }
    match right_click_order(&selection, &field, PlayerId(1), (6, 5), true, true) {
        Some(UnitOrder::AttackMove { target, .. }) => assert_eq!(target, (6, 5)),
        _ => panic!("expected an attack-move"),
    }
    match right_click_order(&selection, &field, PlayerId(1), (6, 5), true, false) {
        Some(UnitOrder::Move { target, .. }) => assert_eq!(target, (6, 5)),
        _ => panic!("expected a move"),
    }
    assert!(right_click_order(&selection, &field, PlayerId(1), (6, 5), false, false).is_none());
    assert!(right_click_order(&Selection::default(), &field, PlayerId(1), (5, 5), true, false).is_none());
}

#[test]
fn the_banner_speaks_from_the_viewers_side() {
    assert_eq!(verdict_line(None, PlayerId(0)), None);
    assert_eq!(verdict_line(Some(Outcome::Victory(PlayerId(0))), PlayerId(0)), Some("VICTORY"));
    assert_eq!(verdict_line(Some(Outcome::Victory(PlayerId(0))), PlayerId(1)), Some("DEFEAT"));
    assert_eq!(verdict_line(Some(Outcome::Stalemate), PlayerId(1)), Some("STALEMATE"));
}

#[test]
fn a_networked_match_cannot_be_paused() {
    assert!(toggled_pause(false, false));
    assert!(!toggled_pause(true, false));
    assert!(!toggled_pause(false, true));
    assert!(toggled_pause(true, true));
}

#[test]
fn damaged_or_selected_units_get_a_health_bar() {
    let mut selection = Selection::default();
    selection.set(vec![4]);
    let units = vec![(1, Some(100)), (2, Some(99)), (3, None), (4, Some(100)), (5, Some(0))];
    assert_eq!(bars_wanted(&units, &selection), vec![2, 4, 5]);
}

#[test]
fn infestation_shows_before_a_garrison() {
    assert_eq!(backing_style(true, true, false), Backing::Infested);
    assert_eq!(backing_style(false, true, false), Backing::Garrisoned);
    assert_eq!(backing_style(false, true, true), Backing::Plain);
    assert_eq!(backing_style(false, false, false), Backing::Plain);
}

#[test]
fn exactly_the_wanted_units_keep_their_bars() {
    let present = vec![(1, false), (1, true), (2, true), (3, false), (3, true)];
    let wanted = vec![2, 3, 4];
    let (create, remove) = plan_bars(&present, &wanted);
    assert_eq!(create, vec![(2, false), (4, false), (4, true)]);
    assert_eq!(remove, vec![(1, false), (1, true)]);
}

#[test]
fn shift_adds_to_the_selection_and_a_plain_click_replaces_it() {
    let mut selection = Selection::default();
    finish_selection(&mut selection, false, vec![5, 2]);
    assert_eq!(selection.units, vec![2, 5]);
    finish_selection(&mut selection, true, vec![3, 5]);
    assert_eq!(selection.units, vec![2, 3, 5]);
    finish_selection(&mut selection, true, vec![]);
    assert_eq!(selection.units, vec![2, 3, 5]);
    // A click on empty ground clears it, unless adding.
    finish_selection(&mut selection, false, vec![]);
    assert!(selection.is_empty());
}

#[test]
fn hotkeys_act_on_the_selection_after_clearing() {
    let none = HotkeysPressed { escape: false, stop: false, deploy: false, pause: false, save: false };
    assert!(hotkey_actions(none, false).is_empty());
    let stop = HotkeysPressed { stop: true, ..none };
    assert_eq!(hotkey_actions(stop, false), vec![HotkeyAction::Stop]);
    assert!(hotkey_actions(stop, true).is_empty());
    let clear_and_stop = HotkeysPressed { escape: true, stop: true, deploy: true, ..none };
    assert_eq!(hotkey_actions(clear_and_stop, false), vec![HotkeyAction::ClearSelection]);
    let everything = HotkeysPressed { escape: false, stop: true, deploy: true, pause: true, save: true };
    assert_eq!(
        hotkey_actions(everything, false),
        vec![HotkeyAction::Stop, HotkeyAction::Deploy, HotkeyAction::TogglePause, HotkeyAction::SaveReplay]
    );
    assert_eq!(
        hotkey_actions(everything, true),
        vec![HotkeyAction::TogglePause, HotkeyAction::SaveReplay]
    );
}
