use fuzzy_pick::render::draw_screen;
use fuzzy_pick::render::print_matches;
use fuzzy_pick::render::DrawCmd;

fn mk(v: &[&str]) -> Vec<String> {
    v.iter().map(|s| s.to_string()).collect()
}

#[test]
fn print_matches_highlights_selection_and_cuts_at_viewport() {
    let m = mk(&["alpha", "beta", "gamma"]);
    let cmds = print_matches(&m, 1, 2);
    assert_eq!(
        cmds,
        vec![
            DrawCmd::Text("alpha".to_string()),
            DrawCmd::Newline,
            DrawCmd::TextInverted("beta".to_string()),
        ]
    );
}

#[test]
fn print_matches_short_list_keeps_trailing_newlines() {
    let m = mk(&["alpha", "beta"]);
    let cmds = print_matches(&m, 0, 5);
    assert_eq!(
        cmds,
        vec![
            DrawCmd::TextInverted("alpha".to_string()),
            DrawCmd::Newline,
            DrawCmd::Text("beta".to_string()),
            DrawCmd::Newline,
        ]
    );
}

#[test]
fn print_matches_of_empty_list_is_empty() {
    let m: Vec<String> = Vec::new();
    let cmds = print_matches(&m, 0, 5);
    assert!(cmds.is_empty());
}

#[test]
fn draw_screen_frames_the_match_list() {
    let m = mk(&["apple", "grape"]);
    let cmds = draw_screen(&m, "ap", 3, 4, 0, 10);
    assert_eq!(
        cmds,
        vec![
            DrawCmd::HideCursor,
            DrawCmd::BlankFrom(4),
            DrawCmd::MoveCursor(4, 0),
            DrawCmd::Header("ap".to_string(), 3),
            DrawCmd::TextInverted("apple".to_string()),
            DrawCmd::Newline,
            DrawCmd::Text("grape".to_string()),
            DrawCmd::Newline,
            DrawCmd::MoveCursor(4, 4),
            DrawCmd::ShowCursor,
        ]
    );
}

#[test]
fn draw_screen_cursor_lands_after_the_query() {
    let m: Vec<String> = Vec::new();
    let cmds = draw_screen(&m, "abc", 0, 7, 0, 3);
    assert_eq!(cmds.len(), 6);
    assert_eq!(cmds[4], DrawCmd::MoveCursor(7, 5));
    assert_eq!(cmds[5], DrawCmd::ShowCursor);
}
