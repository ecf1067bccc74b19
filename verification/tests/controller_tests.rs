use fuzzy_pick::controller::Event;
use fuzzy_pick::controller::Outcome;
use fuzzy_pick::controller::Phase;
use fuzzy_pick::controller::Session;

fn mk(v: &[&str]) -> Vec<String> {
    v.iter().map(|s| s.to_string()).collect()
}

fn fruit_session(query: &str, visible: usize) -> Session {
    Session::new(mk(&["apple", "banana", "grape"]), query.to_string(), visible)
}

#[test]
fn refresh_fills_the_cache() {
    let mut s = fruit_session("", 10);
    assert!(s.stale);
    s.refresh_matches();
    assert!(!s.stale);
    assert_eq!(s.matches, mk(&["apple", "banana", "grape"]));
}

#[test]
fn typing_narrows_and_resets_selection() {
    let mut s = fruit_session("", 10);
    s.refresh_matches();
    assert_eq!(s.apply_event(Event::MoveDown), Outcome::Continue);
    assert_eq!(s.index, 1);
    assert_eq!(s.apply_event(Event::Char('a')), Outcome::Continue);
    assert_eq!(s.query, "a");
    assert_eq!(s.index, 0);
    assert!(s.stale);
    s.refresh_matches();
    assert_eq!(s.matches, mk(&["apple", "banana", "grape"]));
    s.apply_event(Event::Char('p'));
    s.refresh_matches();
    assert_eq!(s.matches, mk(&["apple", "grape"]));
}

#[test]
fn clear_line_after_typing_restores_identity() {
    let mut s = fruit_session("", 10);
    s.refresh_matches();
    s.apply_event(Event::Char('x'));
    assert_eq!(s.apply_event(Event::ClearLine), Outcome::Continue);
    assert_eq!(s.query, "");
    assert_eq!(s.index, 0);
    s.refresh_matches();
    assert_eq!(s.matches, mk(&["apple", "banana", "grape"]));
}

#[test]
fn backspace_drops_last_query_character() {
    let mut s = fruit_session("", 10);
    s.apply_event(Event::Char('a'));
    s.apply_event(Event::Char('p'));
    s.apply_event(Event::Backspace);
    assert_eq!(s.query, "a");
    let mut t = fruit_session("", 10);
    t.apply_event(Event::Backspace);
    assert_eq!(t.query, "");
}

#[test]
fn selection_moves_stay_clamped() {
    let mut s = Session::new(mk(&["a1", "a2", "a3", "a4", "a5"]), String::new(), 3);
    s.refresh_matches();
    for _ in 0..7 {
        s.apply_event(Event::MoveDown);
        assert!(s.index < 3);
    }
    assert_eq!(s.index, 2);
    for _ in 0..7 {
        s.apply_event(Event::MoveUp);
    }
    assert_eq!(s.index, 0);
}

#[test]
fn selection_clamps_to_short_match_list() {
    let mut s = fruit_session("ap", 10);
    s.refresh_matches();
    for _ in 0..5 {
        s.apply_event(Event::MoveDown);
    }
    assert_eq!(s.index, 1);
}

#[test]
fn moves_on_empty_match_list_keep_index_zero() {
    let mut s = fruit_session("xyz", 10);
    s.apply_event(Event::MoveDown);
    assert_eq!(s.index, 0);
    s.apply_event(Event::MoveUp);
    assert_eq!(s.index, 0);
}

#[test]
fn single_row_viewport_pins_the_selection() {
    let mut s = fruit_session("", 1);
    s.refresh_matches();
    s.apply_event(Event::MoveDown);
    assert_eq!(s.index, 0);
    match s.apply_event(Event::Confirm) {
        Outcome::Selected(line) => assert_eq!(line, "apple"),
        other => panic!("expected a selection, got {:?}", other),
    }
}

#[test]
fn confirm_selects_the_highlighted_match() {
    let mut s = fruit_session("", 10);
    s.refresh_matches();
    s.apply_event(Event::MoveDown);
    match s.apply_event(Event::Confirm) {
        Outcome::Selected(line) => assert_eq!(line, "banana"),
        other => panic!("expected a selection, got {:?}", other),
    }
    assert_eq!(s.phase, Phase::Terminated);
}

#[test]
fn confirm_recomputes_a_stale_cache_first() {
    let mut s = fruit_session("", 10);
    s.refresh_matches();
    s.apply_event(Event::Char('g'));
    match s.apply_event(Event::Confirm) {
        Outcome::Selected(line) => assert_eq!(line, "grape"),
        other => panic!("expected a selection, got {:?}", other),
    }
}

#[test]
fn confirm_with_no_match_is_ignored() {
    let mut s = fruit_session("xyz", 10);
    assert_eq!(s.apply_event(Event::Confirm), Outcome::Continue);
    assert_eq!(s.phase, Phase::Typing);
    assert!(s.matches.is_empty());
}

#[test]
fn cancel_terminates_without_output() {
    let mut s = fruit_session("ap", 10);
    assert_eq!(s.apply_event(Event::Cancel), Outcome::Cancelled);
    assert_eq!(s.phase, Phase::Terminated);
}

#[test]
fn seeded_query_session_confirms_top_match() {
    let mut s = fruit_session("ap", 10);
    match s.apply_event(Event::Confirm) {
        Outcome::Selected(line) => assert_eq!(line, "apple"),
        other => panic!("expected a selection, got {:?}", other),
    }
}
