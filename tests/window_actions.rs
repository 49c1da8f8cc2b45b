use crossterm::style::Color;
use tui_windows::{PrettyString, RenderAction, StyleProperty, TermCmd, Window, WindowConfig, WindowDisplay, ActionSeq};

struct Script(fn((u16, u16)) -> Vec<RenderAction>);

impl WindowDisplay for Script {
    fn view_render(&self, _: (u16, u16)) -> ActionSeq {
        unreachable!()
    }

    fn render(&self, size: (u16, u16)) -> Vec<RenderAction> {
        (self.0)(size)
    }
}

/// Runs the commands on a blank screen and returns its rows and the final cursor.
fn run(cmds: &[TermCmd], rows: usize, cols: usize, start: (u16, u16)) -> (Vec<String>, (u16, u16)) {
    let mut grid = vec![vec!['.'; cols]; rows];
    let mut cur = start;
    for cmd in cmds {
        match cmd {
            TermCmd::MoveTo(r, c) => cur = (*r, *c),
            TermCmd::Print(ch) => {
                grid[cur.0 as usize][cur.1 as usize] = *ch;
                cur.1 += 1;
            }
            _ => {}
        }
    }
    (grid.into_iter().map(|r| r.into_iter().collect()).collect(), cur)
}

fn text(s: &str) -> RenderAction {
    RenderAction::Write(PrettyString::new(s.to_string()))
}

fn interpret(wrapping: bool, actions: Vec<RenderAction>, cursor: (u16, u16), origin: (u16, u16), size: (u16, u16)) -> (Vec<TermCmd>, (u16, u16)) {
    let script = Script(|_| Vec::new());
    let w = Window::new(&script, WindowConfig { rel_size: 1, wrapping });
    let mut out = Vec::new();
    let mut cur = cursor;
    w.write_actions(&actions, &mut out, &mut cur, origin, size);
    (out, cur)
}

#[test]
fn wrapping_write_fills_rows_in_order() {
    let (cmds, cur) = interpret(true, vec![RenderAction::MoveTo(0, 0), text("HelloWorld")], (0, 0), (0, 0), (3, 5));
    let (screen, term) = run(&cmds, 3, 5, (0, 0));
    assert_eq!(screen, vec!["Hello", "World", "....."]);
    assert_eq!(cur, (1, 5));
    assert_eq!(term, cur);
}

#[test]
fn wrapping_write_drops_what_passes_the_bottom() {
    let (cmds, cur) = interpret(true, vec![RenderAction::MoveTo(1, 3), text("abcdefghij")], (0, 0), (0, 0), (3, 5));
    let (screen, _) = run(&cmds, 3, 5, (0, 0));
    assert_eq!(screen, vec![".....", "...ab", "cdefg"]);
    assert_eq!(cur, (2, 5));
}

#[test]
fn truncating_write_keeps_what_fits() {
    let (cmds, cur) = interpret(false, vec![RenderAction::MoveTo(0, 3), text("Hello")], (0, 0), (0, 0), (3, 5));
    let (screen, _) = run(&cmds, 3, 5, (0, 0));
    assert_eq!(screen, vec!["...He", ".....", "....."]);
    let prints = cmds.iter().filter(|c| matches!(c, TermCmd::Print(_))).count();
    assert_eq!(prints, 2);
    assert_eq!(cur, (0, 5));
}

#[test]
fn truncating_write_counts_characters_not_bytes() {
    let (cmds, cur) = interpret(false, vec![RenderAction::MoveTo(0, 0), text("éü")], (0, 0), (0, 0), (1, 5));
    let (screen, _) = run(&cmds, 1, 5, (0, 0));
    assert_eq!(screen, vec!["éü..."]);
    assert_eq!(cur, (0, 2));
}

#[test]
fn clear_to_end_blanks_the_rest_of_the_window() {
    let (cmds, cur) = interpret(false, vec![RenderAction::MoveTo(1, 2), RenderAction::ClearToEnd], (0, 0), (0, 0), (3, 5));
    let mut grid = run(&cmds, 3, 5, (0, 0));
    assert_eq!(grid.0, vec![".....", "..   ", "     "]);
    assert_eq!(cur, (1, 2));
    assert_eq!(grid.1, (1, 2));
    grid.0.clear();
}

#[test]
fn clear_to_next_line_blanks_only_the_rest_of_the_row() {
    let (cmds, cur) = interpret(false, vec![RenderAction::MoveTo(1, 2), RenderAction::ClearToNextLine], (2, 3), (2, 3), (3, 5));
    let (screen, term) = run(&cmds, 6, 9, (0, 0));
    assert_eq!(screen[3], ".....   .");
    assert_eq!(screen[2], ".........");
    assert_eq!(screen[4], ".........");
    assert_eq!(cur, (3, 5));
    assert_eq!(term, (3, 5));
}

#[test]
fn clear_line_then_move_back_leaves_next_write_on_same_cell() {
    let plain = interpret(false, vec![RenderAction::MoveTo(1, 1), text("x")], (0, 0), (0, 0), (3, 5));
    let cleared = interpret(
        false,
        vec![RenderAction::MoveTo(1, 1), RenderAction::ClearToNextLine, RenderAction::MoveTo(1, 1), text("x")],
        (0, 0),
        (0, 0),
        (3, 5),
    );
    assert_eq!(plain.1, cleared.1);
    let (a, _) = run(&plain.0, 3, 5, (0, 0));
    let (b, _) = run(&cleared.0, 3, 5, (0, 0));
    assert_eq!(a[1], ".x...");
    assert_eq!(b[1], ".x   ");
}

#[test]
fn move_to_is_clamped_to_the_window() {
    let (cmds, cur) = interpret(false, vec![RenderAction::MoveTo(9, 40)], (0, 0), (4, 10), (3, 5));
    assert_eq!(cmds, vec![TermCmd::MoveTo(6, 14)]);
    assert_eq!(cur, (6, 14));
}

#[test]
fn move_to_next_line_stops_at_the_last_row() {
    let (cmds, cur) = interpret(false, vec![RenderAction::MoveTo(1, 3), RenderAction::MoveToNextLine(1)], (0, 0), (2, 2), (3, 5));
    assert_eq!(cmds[1], TermCmd::MoveTo(4, 2));
    assert_eq!(cur, (4, 2));
    let (_, cur) = interpret(false, vec![RenderAction::MoveToNextLine(7)], (2, 4), (2, 2), (3, 5));
    assert_eq!(cur, (4, 2));
}

#[test]
fn write_applies_styles_in_order_then_resets() {
    let styled = PrettyString::new("ab".to_string())
        .style(StyleProperty::FgColor(Color::Green))
        .style(StyleProperty::BgColor(Color::Blue));
    let (cmds, _) = interpret(false, vec![RenderAction::Write(styled)], (0, 0), (0, 0), (1, 5));
    assert_eq!(
        cmds,
        vec![
            TermCmd::SetForeground(Color::Green),
            TermCmd::SetBackground(Color::Blue),
            TermCmd::Print('a'),
            TermCmd::Print('b'),
            TermCmd::ResetAttributes,
        ]
    );
}

#[test]
fn cursor_visibility_passes_through() {
    let (cmds, cur) = interpret(false, vec![RenderAction::HideCursor, RenderAction::ShowCursor], (1, 1), (0, 0), (3, 5));
    assert_eq!(cmds, vec![TermCmd::HideCursor, TermCmd::ShowCursor]);
    assert_eq!(cur, (1, 1));
}

#[test]
fn cursor_outside_the_window_prints_nothing() {
    let (cmds, cur) = interpret(true, vec![text("abc"), RenderAction::ClearToNextLine], (0, 9), (0, 0), (3, 5));
    assert!(cmds.iter().all(|c| !matches!(c, TermCmd::Print(_))));
    assert_eq!(cur, (0, 9));
}

#[test]
fn empty_window_prints_nothing() {
    let (cmds, _) = interpret(true, vec![RenderAction::MoveTo(0, 0), text("abc"), RenderAction::ClearToEnd], (0, 0), (1, 1), (2, 0));
    assert!(cmds.iter().all(|c| !matches!(c, TermCmd::Print(_))));
}

#[test]
fn window_write_asks_the_pane_for_its_size() {
    let script = Script(|size| vec![RenderAction::MoveTo(0, 0), text(&format!("{}x{}", size.0, size.1))]);
    let w = Window::new(&script, WindowConfig { rel_size: 2, wrapping: false });
    let mut out = Vec::new();
    let mut cur = (0, 0);
    w.write(&mut out, &mut cur, (1, 1), (2, 6));
    let (screen, _) = run(&out, 3, 8, (0, 0));
    assert_eq!(screen[1], ".2x6....");
    assert_eq!(cur, (1, 4));
}

#[test]
fn default_config_is_unit_weight_without_wrapping() {
    let c = WindowConfig::default();
    assert_eq!(c.rel_size, 1);
    assert!(!c.wrapping);
}
