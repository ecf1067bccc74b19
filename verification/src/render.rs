//! Frame rendering as data: each redraw is computed here as a sequence of
//! terminal instructions, and the caller that owns the real terminal plays
//! them back. The header instruction carries the query text and the
//! candidate count; the line instructions carry the match text, with the
//! selected line marked for highlighted output.
use vstd::prelude::*;
use crate::matching::views;

verus! {

/// One terminal instruction of a rendered frame.
#[derive(Debug, PartialEq, Eq)]
pub enum DrawCmd {
    /// Hide the terminal cursor.
    HideCursor,
    /// Show the terminal cursor again.
    ShowCursor,
    /// Clear everything from the given row downward.
    BlankFrom(u16),
    /// Move the cursor to (row, column).
    MoveCursor(u16, u16),
    /// Write the header line: the query text and the candidate count,
    /// ended by a line break.
    Header(String, usize),
    /// Write one match line.
    Text(String),
    /// Write one match line highlighted: the selected line.
    TextInverted(String),
    /// Move the output position to the next line.
    Newline,
}

/// The spec value of one terminal instruction.
pub ghost enum CmdV {
    HideCursor,
    ShowCursor,
    BlankFrom(int),
    MoveCursor(int, int),
    Header(Seq<char>, int),
    Text(Seq<char>),
    TextInverted(Seq<char>),
    Newline,
}

impl View for DrawCmd {
    type V = CmdV;

    open spec fn view(&self) -> CmdV {
        match self {
            DrawCmd::HideCursor => CmdV::HideCursor,
            DrawCmd::ShowCursor => CmdV::ShowCursor,
            DrawCmd::BlankFrom(r) => CmdV::BlankFrom(*r as int),
            DrawCmd::MoveCursor(r, c) => CmdV::MoveCursor(*r as int, *c as int),
            DrawCmd::Header(s, n) => CmdV::Header(s@, *n as int),
            DrawCmd::Text(s) => CmdV::Text(s@),
            DrawCmd::TextInverted(s) => CmdV::TextInverted(s@),
            DrawCmd::Newline => CmdV::Newline,
        }
    }
}

/// The spec values of a list of terminal instructions.
pub open spec fn cmds_view(s: Seq<DrawCmd>) -> Seq<CmdV> {
    s.map_values(|c: DrawCmd| c@)
}

/// The instructions that print the match lines from position `i` onward:
/// one line per match, the one at `index` highlighted, at most `visible`
/// lines in all, with a line break after each line except the last visible
/// one.
pub open spec fn match_line_cmds(ms: Seq<Seq<char>>, index: int, visible: int, i: int) -> Seq<
    CmdV,
>
    decreases ms.len() - i,
{
    if i < 0 || i >= ms.len() || i >= visible {
        Seq::empty()
    } else {
        let line = if i == index {
            seq![CmdV::TextInverted(ms[i])]
        } else {
            seq![CmdV::Text(ms[i])]
        };
        if i + 1 >= visible {
            line
        } else {
            line + seq![CmdV::Newline] + match_line_cmds(ms, index, visible, i + 1)
        }
    }
}

/// The instructions that print a whole match list.
pub open spec fn print_matches_spec(ms: Seq<Seq<char>>, index: int, visible: int) -> Seq<CmdV> {
    match_line_cmds(ms, index, visible, 0)
}

/// Renders the match lines: every match up to the visible-rows budget, in
/// rank order, the line at `index` highlighted.
#[verifier::loop_isolation(false)]
pub fn print_matches(matches: &Vec<String>, index: usize, visible_choices: u16) -> (r: Vec<
    DrawCmd,
>)
    ensures
        cmds_view(r@) == print_matches_spec(views(matches@), index as int, visible_choices as int),
{
    let ghost ms = views(matches@);
    let ghost vis = visible_choices as int;
    let mut r: Vec<DrawCmd> = Vec::new();
    let mut i: usize = 0;
    while i < matches.len() && i < visible_choices as usize
        invariant
            i <= matches@.len(),
            print_matches_spec(ms, index as int, vis) == cmds_view(r@) + match_line_cmds(
                ms,
                index as int,
                vis,
                i as int,
            ),
        decreases matches@.len() - i,
    {
        let ghost before = cmds_view(r@);
        let text = matches[i].clone();
        proof {
            assert(ms[i as int] == matches@[i as int]@);
        }
        if i == index {
            r.push(DrawCmd::TextInverted(text));
        } else {
            r.push(DrawCmd::Text(text));
        }
        if i + 1 < visible_choices as usize {
            r.push(DrawCmd::Newline);
            proof {
                assert(cmds_view(r@) =~= before + match_line_cmds(ms, index as int, vis, i as int)
                    .subrange(0, 2));
                assert(match_line_cmds(ms, index as int, vis, i as int).subrange(0, 2)
                    + match_line_cmds(ms, index as int, vis, i + 1) =~= match_line_cmds(
                    ms,
                    index as int,
                    vis,
                    i as int,
                ));
                assert(before + match_line_cmds(ms, index as int, vis, i as int).subrange(0, 2)
                    + match_line_cmds(ms, index as int, vis, i + 1) =~= before + match_line_cmds(
                    ms,
                    index as int,
                    vis,
                    i as int,
                ));
            }
        } else {
            proof {
                assert(cmds_view(r@) =~= before + match_line_cmds(ms, index as int, vis, i as int));
                assert(match_line_cmds(ms, index as int, vis, i + 1) =~= Seq::<CmdV>::empty());
                assert(cmds_view(r@) + match_line_cmds(ms, index as int, vis, i + 1) =~= cmds_view(
                    r@,
                ));
            }
        }
        i += 1;
    }
    proof {
        assert(match_line_cmds(ms, index as int, vis, i as int) =~= Seq::<CmdV>::empty());
        assert(cmds_view(r@) + Seq::<CmdV>::empty() =~= cmds_view(r@));
    }
    r
}

/// The instructions of a full frame: cursor hidden, the old frame cleared,
/// the header with query text and candidate count, the match lines, and the
/// cursor put back at the end of the typed query.
pub open spec fn draw_screen_spec(
    ms: Seq<Seq<char>>,
    search: Seq<char>,
    count: int,
    start_line: int,
    index: int,
    visible: int,
) -> Seq<CmdV> {
    seq![
        CmdV::HideCursor,
        CmdV::BlankFrom(start_line),
        CmdV::MoveCursor(start_line, 0),
        CmdV::Header(search, count),
    ] + print_matches_spec(ms, index, visible) + seq![
        CmdV::MoveCursor(start_line, 2 + search.len() as int),
        CmdV::ShowCursor,
    ]
}

/// Renders a full frame around the current query, candidate count and match
/// list. The cursor lands two columns past the prompt, at the end of the
/// typed query.
pub fn draw_screen(
    matches: &Vec<String>,
    search: &str,
    choices: usize,
    start_line: u16,
    index: usize,
    visible_choices: u16,
) -> (r: Vec<DrawCmd>)
    requires
        search@.len() + 2 <= u16::MAX,
    ensures
        cmds_view(r@) == draw_screen_spec(
            views(matches@),
            search@,
            choices as int,
            start_line as int,
            index as int,
            visible_choices as int,
        ),
{
    let mut r: Vec<DrawCmd> = Vec::new();
    r.push(DrawCmd::HideCursor);
    r.push(DrawCmd::BlankFrom(start_line));
    r.push(DrawCmd::MoveCursor(start_line, 0));
    r.push(DrawCmd::Header(search.to_owned(), choices));
    let mut lines = print_matches(matches, index, visible_choices);
    let ghost head = cmds_view(r@);
    let ghost mid = cmds_view(lines@);
    r.append(&mut lines);
    proof {
        assert(cmds_view(r@) =~= head + mid);
    }
    let col = 2 + search.unicode_len() as u16;
    r.push(DrawCmd::MoveCursor(start_line, col));
    r.push(DrawCmd::ShowCursor);
    proof {
        assert(cmds_view(r@) =~= draw_screen_spec(
            views(matches@),
            search@,
            choices as int,
            start_line as int,
            index as int,
            visible_choices as int,
        ));
    }
    r
}

} // verus!
