use vstd::prelude::*;

verus! {

/// A low-level command for the terminal backend, in absolute coordinates.
#[derive(Debug, Clone, Copy, PartialEq, Eq)]
pub enum TermCmd {
    /// Move the cursor to (row, col).
    MoveTo(u16, u16),
    /// Print one character at the cursor, which then advances one column.
    Print(char),
    SetForeground(crossterm::style::Color),
    SetBackground(crossterm::style::Color),
    ResetAttributes,
    HideCursor,
    ShowCursor,
}

/// Where the terminal's cursor stands after it ran `cmds`, starting at `start`.
pub open spec fn cursor_after(cmds: Seq<TermCmd>, start: (int, int)) -> (int, int)
    decreases cmds.len(),
{
    if cmds.len() == 0 {
        start
    } else {
        let p = cursor_after(cmds.drop_last(), start);
        match cmds.last() {
            TermCmd::MoveTo(r, c) => (r as int, c as int),
            TermCmd::Print(_) => (p.0, p.1 + 1),
            _ => p,
        }
    }
}

/// A cursor position or extent as a pair of integers.
pub open spec fn at(p: (u16, u16)) -> (int, int) {
    (p.0 as int, p.1 as int)
}

/// The cell `p` lies in the rectangle with top-left corner `origin` and extent `size`.
pub open spec fn in_rect(p: (int, int), origin: (int, int), size: (int, int)) -> bool {
    &&& origin.0 <= p.0 < origin.0 + size.0
    &&& origin.1 <= p.1 < origin.1 + size.1
}

/// Run from `start`, every character that `cmds` prints lands in the rectangle.
pub open spec fn prints_within(
    cmds: Seq<TermCmd>,
    start: (int, int),
    origin: (int, int),
    size: (int, int),
) -> bool
    decreases cmds.len(),
{
    if cmds.len() == 0 {
        true
    } else {
        &&& prints_within(cmds.drop_last(), start, origin, size)
        &&& (cmds.last() is Print ==> in_rect(cursor_after(cmds.drop_last(), start), origin, size))
    }
}

/// Running two command sequences one after the other moves the cursor as running
/// their concatenation does.
pub proof fn lemma_cursor_after_concat(a: Seq<TermCmd>, b: Seq<TermCmd>, start: (int, int))
    ensures
        cursor_after(a + b, start) == cursor_after(b, cursor_after(a, start)),
    decreases b.len(),
{
    if b.len() > 0 {
        lemma_cursor_after_concat(a, b.drop_last(), start);
        assert((a + b).drop_last() =~= a + b.drop_last());
    } else {
        assert(a + b =~= a);
    }
}

/// The prints of a concatenation land in a rectangle exactly when those of each part,
/// run from where the first part leaves the cursor, do.
pub proof fn lemma_prints_within_concat(
    a: Seq<TermCmd>,
    b: Seq<TermCmd>,
    start: (int, int),
    origin: (int, int),
    size: (int, int),
)
    ensures
        prints_within(a + b, start, origin, size) == (prints_within(a, start, origin, size)
            && prints_within(b, cursor_after(a, start), origin, size)),
    decreases b.len(),
{
    if b.len() > 0 {
        lemma_prints_within_concat(a, b.drop_last(), start, origin, size);
        lemma_cursor_after_concat(a, b.drop_last(), start);
        assert((a + b).drop_last() =~= a + b.drop_last());
    } else {
        assert(a + b =~= a);
    }
}

/// Prints that land in a rectangle also land in any rectangle that holds all its
/// cells.
pub proof fn lemma_prints_within_inside(
    cmds: Seq<TermCmd>,
    start: (int, int),
    origin: (int, int),
    size: (int, int),
    outer_origin: (int, int),
    outer_size: (int, int),
)
    requires
        prints_within(cmds, start, origin, size),
        forall|p: (int, int)| in_rect(p, origin, size) ==> #[trigger] in_rect(p, outer_origin, outer_size),
    ensures
        prints_within(cmds, start, outer_origin, outer_size),
    decreases cmds.len(),
{
    if cmds.len() > 0 {
        lemma_prints_within_inside(cmds.drop_last(), start, origin, size, outer_origin, outer_size);
    }
}

} // verus!
