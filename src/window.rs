use vstd::prelude::*;
use crate::action::{PrettyString, RenderAction, StyleProperty};
use crate::terminal::{
    TermCmd, at, cursor_after, in_rect, lemma_cursor_after_concat, lemma_prints_within_concat,
    prints_within,
};

verus! {

/// The region with top-left corner `origin` and extent `size` lies on the
/// addressable terminal grid.
pub open spec fn region_fits(origin: (u16, u16), size: (u16, u16)) -> bool {
    &&& origin.0 + size.0 <= u16::MAX
    &&& origin.1 + size.1 <= u16::MAX
}

/// One past the region's last row.
pub open spec fn bottom(origin: (u16, u16), size: (u16, u16)) -> int {
    origin.0 + size.0
}

/// One past the region's last column.
pub open spec fn right(origin: (u16, u16), size: (u16, u16)) -> int {
    origin.1 + size.1
}

/// The cursor stands on a row of the region, at one of its columns or just past
/// the last one.
pub open spec fn cursor_inside(origin: (u16, u16), size: (u16, u16), cur: (u16, u16)) -> bool {
    &&& origin.0 <= cur.0 < bottom(origin, size)
    &&& origin.1 <= cur.1 <= right(origin, size)
}

/// The largest local coordinate below `extent` nearest to `v` (0 for an empty extent).
pub open spec fn clamp_local(v: u16, extent: u16) -> int {
    if extent == 0 {
        0
    } else if v < extent {
        v as int
    } else {
        extent - 1
    }
}

/// `n` blank characters.
pub open spec fn blanks(n: nat) -> Seq<TermCmd> {
    Seq::new(n, |_i: int| TermCmd::Print(' '))
}

/// The command that prints `c`.
pub open spec fn print_cmd(c: char) -> TermCmd {
    TermCmd::Print(c)
}

/// One print per character, in order.
pub open spec fn prints_of(text: Seq<char>) -> Seq<TermCmd> {
    Seq::new(text.len(), |i: int| print_cmd(text[i]))
}

/// The command that applies one style property.
pub open spec fn style_cmd(p: StyleProperty) -> TermCmd {
    match p {
        StyleProperty::FgColor(c) => TermCmd::SetForeground(c),
        StyleProperty::BgColor(c) => TermCmd::SetBackground(c),
    }
}

/// The commands that apply style properties, in order.
pub open spec fn style_cmds(style: Seq<StyleProperty>) -> Seq<TermCmd> {
    Seq::new(style.len(), |i: int| style_cmd(style[i]))
}

/// Blanks the `k` full rows of the region that start at row `first`.
pub open spec fn blank_rows(origin: (u16, u16), size: (u16, u16), first: int, k: nat) -> Seq<TermCmd>
    decreases k,
{
    if k == 0 {
        seq![]
    } else {
        blank_rows(origin, size, first, (k - 1) as nat).push(
            TermCmd::MoveTo((first + k - 1) as u16, origin.1),
        ) + blanks(size.1 as nat)
    }
}

/// Blanks from the cursor to the region's right edge, when the cursor is inside.
pub open spec fn clear_line_cmds(origin: (u16, u16), size: (u16, u16), cur: (u16, u16)) -> Seq<
    TermCmd,
> {
    if cursor_inside(origin, size, cur) {
        blanks((right(origin, size) - cur.1) as nat)
    } else {
        seq![]
    }
}

/// Blanks the rest of the cursor's row and every later row of the region, when the
/// cursor is inside.
pub open spec fn clear_end_cmds(origin: (u16, u16), size: (u16, u16), cur: (u16, u16)) -> Seq<
    TermCmd,
> {
    if cursor_inside(origin, size, cur) {
        blanks((right(origin, size) - cur.1) as nat) + blank_rows(
            origin,
            size,
            cur.0 + 1,
            (bottom(origin, size) - cur.0 - 1) as nat,
        )
    } else {
        seq![]
    }
}

/// Writes one character with wrapping: at the right edge the cursor first goes to
/// the start of the next row; at the last row's end the character is dropped.
pub open spec fn wrap_char(origin: (u16, u16), size: (u16, u16), cur: (u16, u16), c: char) -> (
    Seq<TermCmd>,
    (u16, u16),
) {
    if cur.1 < right(origin, size) {
        (seq![print_cmd(c)], (cur.0, (cur.1 + 1) as u16))
    } else if cur.0 + 1 < bottom(origin, size) && size.1 > 0 {
        (
            seq![TermCmd::MoveTo((cur.0 + 1) as u16, origin.1), print_cmd(c)],
            ((cur.0 + 1) as u16, (origin.1 + 1) as u16),
        )
    } else {
        (seq![], cur)
    }
}

/// Writes `text` character by character with wrapping.
pub open spec fn wrap_text(origin: (u16, u16), size: (u16, u16), cur: (u16, u16), text: Seq<char>) -> (
    Seq<TermCmd>,
    (u16, u16),
)
    decreases text.len(),
{
    if text.len() == 0 {
        (seq![], cur)
    } else {
        let (a, p) = wrap_text(origin, size, cur, text.drop_last());
        let (b, q) = wrap_char(origin, size, p, text.last());
        (a + b, q)
    }
}

/// How many characters a truncating write may print: those left before the
/// region's right edge.
pub open spec fn available(origin: (u16, u16), size: (u16, u16), cur: (u16, u16)) -> int {
    if cursor_inside(origin, size, cur) {
        right(origin, size) - cur.1
    } else {
        0
    }
}

/// Writes the part of `text` that fits before the right edge; the rest is dropped.
pub open spec fn truncate_text(
    origin: (u16, u16),
    size: (u16, u16),
    cur: (u16, u16),
    text: Seq<char>,
) -> (Seq<TermCmd>, (u16, u16)) {
    let n = if text.len() < available(origin, size, cur) {
        text.len() as int
    } else {
        available(origin, size, cur)
    };
    (prints_of(text.take(n)), (cur.0, (cur.1 + n) as u16))
}

/// The text part of a write, under the window's wrapping policy.
pub open spec fn text_cmds(
    wrapping: bool,
    origin: (u16, u16),
    size: (u16, u16),
    cur: (u16, u16),
    text: Seq<char>,
) -> (Seq<TermCmd>, (u16, u16)) {
    if !cursor_inside(origin, size, cur) {
        (seq![], cur)
    } else if wrapping {
        wrap_text(origin, size, cur, text)
    } else {
        truncate_text(origin, size, cur, text)
    }
}

/// The commands for one action and the cursor after it.
pub open spec fn action_cmds(
    wrapping: bool,
    origin: (u16, u16),
    size: (u16, u16),
    cur: (u16, u16),
    a: RenderAction,
) -> (Seq<TermCmd>, (u16, u16)) {
    match a {
        RenderAction::MoveTo(r, c) => {
            let p = (
                (origin.0 + clamp_local(r, size.0)) as u16,
                (origin.1 + clamp_local(c, size.1)) as u16,
            );
            (seq![TermCmd::MoveTo(p.0, p.1)], p)
        },
        RenderAction::MoveToNextLine(n) => {
            let last = origin.0 + clamp_local(u16::MAX, size.0);
            let row = if cur.0 + n < last {
                cur.0 + n
            } else {
                last
            };
            (seq![TermCmd::MoveTo(row as u16, origin.1)], (row as u16, origin.1))
        },
        RenderAction::ClearToNextLine => (
            clear_line_cmds(origin, size, cur).push(TermCmd::MoveTo(cur.0, cur.1)),
            cur,
        ),
        RenderAction::ClearToEnd => (
            clear_end_cmds(origin, size, cur).push(TermCmd::MoveTo(cur.0, cur.1)),
            cur,
        ),
        RenderAction::Write(p) => {
            let (t, q) = text_cmds(wrapping, origin, size, cur, p.contents@);
            ((style_cmds(p.style@) + t).push(TermCmd::ResetAttributes), q)
        },
        RenderAction::HideCursor => (seq![TermCmd::HideCursor], cur),
        RenderAction::ShowCursor => (seq![TermCmd::ShowCursor], cur),
    }
}

/// The commands for a sequence of actions, interpreted in order, and the cursor
/// after the last.
pub open spec fn actions_cmds(
    wrapping: bool,
    origin: (u16, u16),
    size: (u16, u16),
    cur: (u16, u16),
    actions: Seq<RenderAction>,
) -> (Seq<TermCmd>, (u16, u16))
    decreases actions.len(),
{
    if actions.len() == 0 {
        (seq![], cur)
    } else {
        let (a, p) = actions_cmds(wrapping, origin, size, cur, actions.drop_last());
        let (b, q) = action_cmds(wrapping, origin, size, p, actions.last());
        (a + b, q)
    }
}

/// What a pane draws: given the size available to it, the actions that describe
/// its content in its own local frame.
/// The actions of a pane as a sequence, the type of [`WindowDisplay::view_render`].
pub type ActionSeq = Seq<RenderAction>;

pub trait WindowDisplay {
    /// The actions that the pane draws at `size`: a function of the pane's state
    /// and the size alone. A specification item: it is never called at run time, so
    /// an implementation outside verified code has an unreachable body.
    spec fn view_render(&self, size: (u16, u16)) -> Seq<RenderAction>;

    fn render(&self, size: (u16, u16)) -> (r: Vec<RenderAction>)
        ensures
            r@ == self.view_render(size),
    ;
}

/// The configuration of a region: its size weight among its siblings, and whether
/// writes wrap at its right edge or are cut there.
#[derive(Clone, Copy)]
pub struct WindowConfig {
    pub rel_size: u32,
    pub wrapping: bool,
}

impl Default for WindowConfig {
    fn default() -> (r: WindowConfig)
        ensures
            r.rel_size == 1,
            !r.wrapping,
    {
        WindowConfig { rel_size: 1, wrapping: false }
    }
}

/// A leaf of the layout: a pane bound to a region configuration.
pub struct Window<'a> {
    pub config: WindowConfig,
    pub display: &'a dyn WindowDisplay,
}

fn is_inside(origin: (u16, u16), size: (u16, u16), cur: (u16, u16)) -> (r: bool)
    requires
        region_fits(origin, size),
    ensures
        r == cursor_inside(origin, size, cur),
{
    origin.0 <= cur.0 && cur.0 < origin.0 + size.0 && origin.1 <= cur.1 && cur.1 <= origin.1
        + size.1
}

fn push_blanks(out: &mut Vec<TermCmd>, n: u16)
    ensures
        final(out)@ == old(out)@ + blanks(n as nat),
{
    let mut k: u16 = 0;
    while k < n
        invariant
            k <= n,
            out@ == old(out)@ + blanks(k as nat),
        decreases n - k,
    {
        proof {
            assert(blanks((k + 1) as nat) =~= blanks(k as nat).push(TermCmd::Print(' ')));
            assert(old(out)@ + blanks((k + 1) as nat) =~= (old(out)@ + blanks(k as nat)).push(
                TermCmd::Print(' '),
            ));
        }
        out.push(TermCmd::Print(' '));
        k = k + 1;
    }
}

fn push_clear_line(out: &mut Vec<TermCmd>, origin: (u16, u16), size: (u16, u16), cur: (u16, u16))
    requires
        region_fits(origin, size),
    ensures
        final(out)@ == old(out)@ + clear_line_cmds(origin, size, cur),
{
    if is_inside(origin, size, cur) {
        push_blanks(out, origin.1 + size.1 - cur.1);
    } else {
        assert(old(out)@ + seq![] =~= old(out)@);
    }
}

fn push_clear_end(out: &mut Vec<TermCmd>, origin: (u16, u16), size: (u16, u16), cur: (u16, u16))
    requires
        region_fits(origin, size),
    ensures
        final(out)@ == old(out)@ + clear_end_cmds(origin, size, cur),
{
    if is_inside(origin, size, cur) {
        push_blanks(out, origin.1 + size.1 - cur.1);
        let ghost mid = out@;
        let end = origin.0 + size.0;
        let mut row = cur.0 + 1;
        while row < end
            invariant
                region_fits(origin, size),
                end == origin.0 + size.0,
                cur.0 + 1 <= row <= end,
                out@ == mid + blank_rows(origin, size, cur.0 + 1, (row - cur.0 - 1) as nat),
            decreases end - row,
        {
            let ghost before = out@;
            out.push(TermCmd::MoveTo(row, origin.1));
            push_blanks(out, size.1);
            proof {
                let k = (row + 1 - cur.0 - 1) as nat;
                assert(blank_rows(origin, size, cur.0 + 1, k) == blank_rows(
                    origin,
                    size,
                    cur.0 + 1,
                    (k - 1) as nat,
                ).push(TermCmd::MoveTo(row, origin.1)) + blanks(size.1 as nat));
                assert(out@ =~= mid + blank_rows(origin, size, cur.0 + 1, k));
            }
            row = row + 1;
        }
        assert(out@ =~= old(out)@ + clear_end_cmds(origin, size, cur));
    } else {
        assert(old(out)@ + seq![] =~= old(out)@);
    }
}

fn push_styles(out: &mut Vec<TermCmd>, style: &Vec<StyleProperty>)
    ensures
        final(out)@ == old(out)@ + style_cmds(style@),
{
    let mut i: usize = 0;
    while i < style.len()
        invariant
            i <= style@.len(),
            out@ == old(out)@ + style_cmds(style@.take(i as int)),
        decreases style@.len() - i,
    {
        let cmd = match &style[i] {
            StyleProperty::FgColor(c) => TermCmd::SetForeground(*c),
            StyleProperty::BgColor(c) => TermCmd::SetBackground(*c),
        };
        proof {
            assert(style_cmds(style@.take(i + 1)) =~= style_cmds(style@.take(i as int)).push(cmd));
        }
        out.push(cmd);
        i = i + 1;
    }
    assert(style@.take(i as int) =~= style@);
}

fn push_wrapped(
    out: &mut Vec<TermCmd>,
    origin: (u16, u16),
    size: (u16, u16),
    cur: (u16, u16),
    text: &Vec<char>,
) -> (r: (u16, u16))
    requires
        region_fits(origin, size),
        cursor_inside(origin, size, cur),
    ensures
        final(out)@ == old(out)@ + wrap_text(origin, size, cur, text@).0,
        r == wrap_text(origin, size, cur, text@).1,
{
    let mut p = cur;
    let mut i: usize = 0;
    while i < text.len()
        invariant
            region_fits(origin, size),
            i <= text@.len(),
            cursor_inside(origin, size, p),
            out@ == old(out)@ + wrap_text(origin, size, cur, text@.take(i as int)).0,
            p == wrap_text(origin, size, cur, text@.take(i as int)).1,
        decreases text@.len() - i,
    {
        let c = text[i];
        let ghost before = out@;
        let ghost step = wrap_char(origin, size, p, c);
        proof {
            let t1 = text@.take(i + 1);
            assert(t1.drop_last() =~= text@.take(i as int));
            assert(t1.last() == c);
        }
        if p.1 < origin.1 + size.1 {
            out.push(TermCmd::Print(c));
            p = (p.0, p.1 + 1);
            assert(out@ =~= before + step.0);
        } else if p.0 + 1 < origin.0 + size.0 && size.1 > 0 {
            out.push(TermCmd::MoveTo(p.0 + 1, origin.1));
            out.push(TermCmd::Print(c));
            p = (p.0 + 1, origin.1 + 1);
            assert(out@ =~= before + step.0);
        } else {
            assert(out@ =~= before + step.0);
        }
        proof {
            assert(out@ =~= before + step.0);
            assert(p == step.1);
            assert(out@ =~= old(out)@ + wrap_text(origin, size, cur, text@.take(i + 1)).0);
        }
        i = i + 1;
    }
    assert(text@.take(i as int) =~= text@);
    p
}

fn push_truncated(
    out: &mut Vec<TermCmd>,
    origin: (u16, u16),
    size: (u16, u16),
    cur: (u16, u16),
    text: &Vec<char>,
) -> (r: (u16, u16))
    requires
        region_fits(origin, size),
        cursor_inside(origin, size, cur),
    ensures
        final(out)@ == old(out)@ + truncate_text(origin, size, cur, text@).0,
        r == truncate_text(origin, size, cur, text@).1,
{
    let avail: u16 = origin.1 + size.1 - cur.1;
    let n: usize = if text.len() < avail as usize {
        text.len()
    } else {
        avail as usize
    };
    let mut i: usize = 0;
    assert(old(out)@ + prints_of(text@.take(0)) =~= old(out)@);
    while i < n
        invariant
            n <= text@.len(),
            n <= avail,
            i <= n,
            out@ == old(out)@ + prints_of(text@.take(i as int)),
        decreases n - i,
    {
        let ghost before = out@;
        out.push(TermCmd::Print(text[i]));
        proof {
            assert(prints_of(text@.take(i + 1)) =~= prints_of(text@.take(i as int)).push(
                print_cmd(text@[i as int]),
            ));
            assert(out@ =~= old(out)@ + prints_of(text@.take(i + 1)));
        }
        i = i + 1;
    }
    (cur.0, cur.1 + n as u16)
}

impl<'a> Window<'a> {
    /// A window showing `display` (the window holds exactly the given reference and
    /// configuration); its weight must be positive.
    pub fn new(display: &'a dyn WindowDisplay, config: WindowConfig) -> (r: Window<'a>)
        requires
            config.rel_size > 0,
        ensures
            r == (Window { config, display }),
            r.config == config,
    {
        Window { config, display }
    }

    /// Interprets one action at cursor `cur` in the region; returns the new cursor.
    fn apply_action(
        &self,
        action: &RenderAction,
        out: &mut Vec<TermCmd>,
        cur: (u16, u16),
        origin: (u16, u16),
        size: (u16, u16),
    ) -> (r: (u16, u16))
        requires
            region_fits(origin, size),
        ensures
            final(out)@ == old(out)@ + action_cmds(self.config.wrapping, origin, size, cur, *action).0,
            r == action_cmds(self.config.wrapping, origin, size, cur, *action).1,
    {
        match action {
            RenderAction::MoveTo(row, col) => {
                let r = if size.0 == 0 {
                    0
                } else if *row < size.0 {
                    *row
                } else {
                    size.0 - 1
                };
                let c = if size.1 == 0 {
                    0
                } else if *col < size.1 {
                    *col
                } else {
                    size.1 - 1
                };
                let p = (origin.0 + r, origin.1 + c);
                out.push(TermCmd::MoveTo(p.0, p.1));
                assert(out@ =~= old(out)@ + seq![TermCmd::MoveTo(p.0, p.1)]);
                p
            },
            RenderAction::MoveToNextLine(n) => {
                let last: u16 = if size.0 == 0 {
                    origin.0
                } else {
                    origin.0 + (size.0 - 1)
                };
                let row: u16 = if (cur.0 as u32) + (*n as u32) < last as u32 {
                    cur.0 + *n
                } else {
                    last
                };
                out.push(TermCmd::MoveTo(row, origin.1));
                assert(out@ =~= old(out)@ + seq![TermCmd::MoveTo(row, origin.1)]);
                (row, origin.1)
            },
            RenderAction::ClearToNextLine => {
                push_clear_line(out, origin, size, cur);
                out.push(TermCmd::MoveTo(cur.0, cur.1));
                assert(out@ =~= old(out)@ + clear_line_cmds(origin, size, cur).push(
                    TermCmd::MoveTo(cur.0, cur.1),
                ));
                cur
            },
            RenderAction::ClearToEnd => {
                push_clear_end(out, origin, size, cur);
                out.push(TermCmd::MoveTo(cur.0, cur.1));
                assert(out@ =~= old(out)@ + clear_end_cmds(origin, size, cur).push(
                    TermCmd::MoveTo(cur.0, cur.1),
                ));
                cur
            },
            RenderAction::Write(p) => {
                push_styles(out, &p.style);
                let ghost styled = out@;
                let q = if !is_inside(origin, size, cur) {
                    assert(out@ =~= styled + seq![]);
                    cur
                } else if self.config.wrapping {
                    push_wrapped(out, origin, size, cur, &p.contents)
                } else {
                    push_truncated(out, origin, size, cur, &p.contents)
                };
                out.push(TermCmd::ResetAttributes);
                assert(out@ =~= old(out)@ + (style_cmds(p.style@) + text_cmds(
                    self.config.wrapping,
                    origin,
                    size,
                    cur,
                    p.contents@,
                ).0).push(TermCmd::ResetAttributes));
                q
            },
            RenderAction::HideCursor => {
                out.push(TermCmd::HideCursor);
                assert(out@ =~= old(out)@ + seq![TermCmd::HideCursor]);
                cur
            },
            RenderAction::ShowCursor => {
                out.push(TermCmd::ShowCursor);
                assert(out@ =~= old(out)@ + seq![TermCmd::ShowCursor]);
                cur
            },
        }
    }

    /// Interprets `actions` in order from `*cursor`, appending the commands to `out`
    /// and leaving in `*cursor` the position after the last.
    pub fn write_actions(
        &self,
        actions: &Vec<RenderAction>,
        out: &mut Vec<TermCmd>,
        cursor: &mut (u16, u16),
        origin: (u16, u16),
        size: (u16, u16),
    )
        requires
            region_fits(origin, size),
        ensures
            final(out)@ == old(out)@ + actions_cmds(
                self.config.wrapping,
                origin,
                size,
                *old(cursor),
                actions@,
            ).0,
            *final(cursor) == actions_cmds(
                self.config.wrapping,
                origin,
                size,
                *old(cursor),
                actions@,
            ).1,
    {
        let ghost start = *cursor;
        let mut i: usize = 0;
        assert(actions@.take(0) =~= seq![]);
        assert(old(out)@ + seq![] =~= old(out)@);
        while i < actions.len()
            invariant
                region_fits(origin, size),
                i <= actions@.len(),
                out@ == old(out)@ + actions_cmds(
                    self.config.wrapping,
                    origin,
                    size,
                    start,
                    actions@.take(i as int),
                ).0,
                *cursor == actions_cmds(
                    self.config.wrapping,
                    origin,
                    size,
                    start,
                    actions@.take(i as int),
                ).1,
            decreases actions@.len() - i,
        {
            let ghost before = out@;
            let next = self.apply_action(&actions[i], out, *cursor, origin, size);
            *cursor = next;
            proof {
                let t1 = actions@.take(i + 1);
                assert(t1.drop_last() =~= actions@.take(i as int));
                assert(t1.last() == actions@[i as int]);
                assert(out@ =~= old(out)@ + actions_cmds(
                    self.config.wrapping,
                    origin,
                    size,
                    start,
                    t1,
                ).0);
            }
            i = i + 1;
        }
        assert(actions@.take(i as int) =~= actions@);
    }

    /// Draws the pane into the region: asks it for its actions at the region's size
    /// and interprets them from `*cursor`. Every character printed lands in the
    /// region, `*cursor` ends where the commands leave the terminal's cursor, and a
    /// cursor that starts inside a non-empty region stays inside it.
    pub fn write(
        &self,
        out: &mut Vec<TermCmd>,
        cursor: &mut (u16, u16),
        origin: (u16, u16),
        size: (u16, u16),
    )
        requires
            region_fits(origin, size),
        ensures
            final(out)@ == old(out)@ + actions_cmds(
                self.config.wrapping,
                origin,
                size,
                *old(cursor),
                self.display.view_render(size),
            ).0,
            *final(cursor) == actions_cmds(
                self.config.wrapping,
                origin,
                size,
                *old(cursor),
                self.display.view_render(size),
            ).1,
            prints_within(
                final(out)@.skip(old(out)@.len() as int),
                at(*old(cursor)),
                at(origin),
                at(size),
            ),
            cursor_after(final(out)@.skip(old(out)@.len() as int), at(*old(cursor))) == at(
                *final(cursor),
            ),
            size.0 > 0 && size.1 > 0 && cursor_inside(origin, size, *old(cursor)) ==> cursor_inside(
                origin,
                size,
                *final(cursor),
            ),
    {
        let actions = self.display.render(size);
        let ghost start = *cursor;
        self.write_actions(&actions, out, cursor, origin, size);
        proof {
            lemma_actions_track(self.config.wrapping, origin, size, start, actions@);
            if size.0 > 0 && size.1 > 0 && cursor_inside(origin, size, start) {
                lemma_actions_inside(self.config.wrapping, origin, size, start, actions@);
            }
            let (cmds, p) = actions_cmds(self.config.wrapping, origin, size, start, actions@);
            assert(out@.skip(old(out)@.len() as int) =~= cmds);
        }
    }
}

/// Running the commands of `n` blanks from `p` ends `n` columns further, and prints
/// inside the region when those columns are.
proof fn lemma_blanks_track(n: nat, p: (int, int), origin: (int, int), size: (int, int))
    ensures
        cursor_after(blanks(n), p) == (p.0, p.1 + n),
        (origin.0 <= p.0 < origin.0 + size.0 && origin.1 <= p.1 && p.1 + n <= origin.1 + size.1)
            ==> prints_within(blanks(n), p, origin, size),
    decreases n,
{
    if n > 0 {
        lemma_blanks_track((n - 1) as nat, p, origin, size);
        assert(blanks(n).drop_last() =~= blanks((n - 1) as nat));
    }
}

proof fn lemma_prints_of_track(t: Seq<char>, p: (int, int), origin: (int, int), size: (int, int))
    ensures
        cursor_after(prints_of(t), p) == (p.0, p.1 + t.len()),
        (origin.0 <= p.0 < origin.0 + size.0 && origin.1 <= p.1 && p.1 + t.len() <= origin.1
            + size.1) ==> prints_within(prints_of(t), p, origin, size),
    decreases t.len(),
{
    if t.len() > 0 {
        lemma_prints_of_track(t.drop_last(), p, origin, size);
        assert(prints_of(t).drop_last() =~= prints_of(t.drop_last()));
    }
}

proof fn lemma_styles_track(style: Seq<StyleProperty>, p: (int, int), origin: (int, int), size: (int, int))
    ensures
        cursor_after(style_cmds(style), p) == p,
        prints_within(style_cmds(style), p, origin, size),
    decreases style.len(),
{
    if style.len() > 0 {
        lemma_styles_track(style.drop_last(), p, origin, size);
        assert(style_cmds(style).drop_last() =~= style_cmds(style.drop_last()));
    }
}

proof fn lemma_blank_rows_track(origin: (u16, u16), size: (u16, u16), first: int, k: nat, p: (int, int))
    requires
        region_fits(origin, size),
        origin.0 <= first,
        first + k <= bottom(origin, size),
    ensures
        prints_within(blank_rows(origin, size, first, k), p, at(origin), at(size)),
    decreases k,
{
    if k > 0 {
        let prev = blank_rows(origin, size, first, (k - 1) as nat);
        let mv = prev.push(TermCmd::MoveTo((first + k - 1) as u16, origin.1));
        lemma_blank_rows_track(origin, size, first, (k - 1) as nat, p);
        assert(mv.drop_last() =~= prev);
        lemma_prints_within_concat(mv, blanks(size.1 as nat), p, at(origin), at(size));
        lemma_blanks_track(size.1 as nat, cursor_after(mv, p), at(origin), at(size));
    }
}

proof fn lemma_wrap_track(origin: (u16, u16), size: (u16, u16), cur: (u16, u16), t: Seq<char>)
    requires
        region_fits(origin, size),
        cursor_inside(origin, size, cur),
    ensures
        cursor_inside(origin, size, wrap_text(origin, size, cur, t).1),
        cursor_after(wrap_text(origin, size, cur, t).0, at(cur)) == at(wrap_text(origin, size, cur, t).1),
        prints_within(wrap_text(origin, size, cur, t).0, at(cur), at(origin), at(size)),
    decreases t.len(),
{
    if t.len() > 0 {
        lemma_wrap_track(origin, size, cur, t.drop_last());
        let (a, p) = wrap_text(origin, size, cur, t.drop_last());
        let (b, q) = wrap_char(origin, size, p, t.last());
        lemma_cursor_after_concat(a, b, at(cur));
        lemma_prints_within_concat(a, b, at(cur), at(origin), at(size));
        let pa = cursor_after(a, at(cur));
        if p.1 < right(origin, size) {
            assert(b.drop_last() =~= seq![]);
            assert(cursor_after(b.drop_last(), pa) == pa);
            assert(prints_within(b.drop_last(), pa, at(origin), at(size)));
            assert(b.last() is Print);
            assert(cursor_after(b, pa) == at(q));
            assert(prints_within(b, pa, at(origin), at(size)));
        } else if p.0 + 1 < bottom(origin, size) && size.1 > 0 {
            let m = seq![TermCmd::MoveTo((p.0 + 1) as u16, origin.1)];
            assert(b.drop_last() =~= m);
            assert(m.drop_last() =~= seq![]);
            assert(cursor_after(m.drop_last(), pa) == pa);
            assert(prints_within(m.drop_last(), pa, at(origin), at(size)));
            assert(cursor_after(m, pa) == ((p.0 + 1) as int, origin.1 as int));
            assert(prints_within(m, pa, at(origin), at(size)));
            assert(cursor_after(b, pa) == at(q));
            assert(prints_within(b, pa, at(origin), at(size)));
        } else {
            assert(b =~= seq![]);
            assert(a + b =~= a);
        }
    }
}

proof fn lemma_action_track(
    wrapping: bool,
    origin: (u16, u16),
    size: (u16, u16),
    cur: (u16, u16),
    a: RenderAction,
)
    requires
        region_fits(origin, size),
    ensures
        cursor_after(action_cmds(wrapping, origin, size, cur, a).0, at(cur)) == at(
            action_cmds(wrapping, origin, size, cur, a).1,
        ),
        prints_within(action_cmds(wrapping, origin, size, cur, a).0, at(cur), at(origin), at(size)),
{
    let (cmds, q) = action_cmds(wrapping, origin, size, cur, a);
    let c0 = at(cur);
    match a {
        RenderAction::ClearToNextLine => {
            let c = clear_line_cmds(origin, size, cur);
            assert(cmds.drop_last() =~= c);
            lemma_blanks_track((right(origin, size) - cur.1) as nat, c0, at(origin), at(size));
            assert(prints_within(c, c0, at(origin), at(size)));
        },
        RenderAction::ClearToEnd => {
            let c = clear_end_cmds(origin, size, cur);
            assert(cmds.drop_last() =~= c);
            if cursor_inside(origin, size, cur) {
                let n = (right(origin, size) - cur.1) as nat;
                let k = (bottom(origin, size) - cur.0 - 1) as nat;
                let bl = blanks(n);
                let rows = blank_rows(origin, size, cur.0 + 1, k);
                lemma_blanks_track(n, c0, at(origin), at(size));
                lemma_prints_within_concat(bl, rows, c0, at(origin), at(size));
                lemma_blank_rows_track(origin, size, cur.0 + 1, k, cursor_after(bl, c0));
            }
            assert(prints_within(c, c0, at(origin), at(size)));
        },
        RenderAction::Write(p) => {
            let st = style_cmds(p.style@);
            let (t, q2) = text_cmds(wrapping, origin, size, cur, p.contents@);
            assert(cmds.drop_last() =~= st + t);
            lemma_styles_track(p.style@, c0, at(origin), at(size));
            lemma_cursor_after_concat(st, t, c0);
            lemma_prints_within_concat(st, t, c0, at(origin), at(size));
            if cursor_inside(origin, size, cur) {
                if wrapping {
                    lemma_wrap_track(origin, size, cur, p.contents@);
                } else {
                    let n = if p.contents@.len() < available(origin, size, cur) {
                        p.contents@.len() as int
                    } else {
                        available(origin, size, cur)
                    };
                    lemma_prints_of_track(p.contents@.take(n), c0, at(origin), at(size));
                }
            } else {
                assert(t =~= seq![]);
                assert(cursor_after(t, c0) == c0);
                assert(prints_within(t, c0, at(origin), at(size)));
            }
            assert(cursor_after(st + t, c0) == at(q));
            assert(prints_within(st + t, c0, at(origin), at(size)));
        },
        _ => {
            assert(cmds.drop_last() =~= seq![]);
            assert(cursor_after(cmds.drop_last(), c0) == c0);
            assert(prints_within(cmds.drop_last(), c0, at(origin), at(size)));
        },
    }
}

/// The cursor that a window keeps is always the terminal's real cursor: run from
/// the window's cursor, the commands for any actions leave the terminal's cursor
/// where the window's cursor ends. And whatever the actions ask, every character
/// they print lands inside the window's region.
pub proof fn lemma_actions_track(
    wrapping: bool,
    origin: (u16, u16),
    size: (u16, u16),
    cur: (u16, u16),
    actions: Seq<RenderAction>,
)
    requires
        region_fits(origin, size),
    ensures
        cursor_after(actions_cmds(wrapping, origin, size, cur, actions).0, at(cur)) == at(
            actions_cmds(wrapping, origin, size, cur, actions).1,
        ),
        prints_within(actions_cmds(wrapping, origin, size, cur, actions).0, at(cur), at(origin), at(size)),
    decreases actions.len(),
{
    if actions.len() > 0 {
        lemma_actions_track(wrapping, origin, size, cur, actions.drop_last());
        let (a, p) = actions_cmds(wrapping, origin, size, cur, actions.drop_last());
        let (b, q) = action_cmds(wrapping, origin, size, p, actions.last());
        lemma_action_track(wrapping, origin, size, p, actions.last());
        lemma_cursor_after_concat(a, b, at(cur));
        lemma_prints_within_concat(a, b, at(cur), at(origin), at(size));
    } else {
        assert(actions_cmds(wrapping, origin, size, cur, actions).0 =~= seq![]);
    }
}

/// Interpreting two action sequences one after the other is interpreting their
/// concatenation.
pub proof fn lemma_actions_concat(
    wrapping: bool,
    origin: (u16, u16),
    size: (u16, u16),
    cur: (u16, u16),
    a: Seq<RenderAction>,
    b: Seq<RenderAction>,
)
    ensures
        actions_cmds(wrapping, origin, size, cur, a + b) == (
            actions_cmds(wrapping, origin, size, cur, a).0 + actions_cmds(
                wrapping,
                origin,
                size,
                actions_cmds(wrapping, origin, size, cur, a).1,
                b,
            ).0,
            actions_cmds(
                wrapping,
                origin,
                size,
                actions_cmds(wrapping, origin, size, cur, a).1,
                b,
            ).1,
        ),
    decreases b.len(),
{
    let (ca, pa) = actions_cmds(wrapping, origin, size, cur, a);
    if b.len() > 0 {
        lemma_actions_concat(wrapping, origin, size, cur, a, b.drop_last());
        assert((a + b).drop_last() =~= a + b.drop_last());
        assert((a + b).last() == b.last());
        let (cb, pb) = actions_cmds(wrapping, origin, size, pa, b.drop_last());
        let (d, q) = action_cmds(wrapping, origin, size, pb, b.last());
        assert(ca + cb + d =~= ca + (cb + d));
    } else {
        assert(a + b =~= a);
        assert(ca + seq![] =~= ca);
    }
}

/// Clearing the rest of the line blanks exactly the cells from the cursor to the
/// region's right edge on the cursor's row, then moves back to the cursor's cell.
/// Moving back once more to that same cell therefore changes nothing for what
/// follows: after any actions `before` that leave the cursor on a cell of the
/// region, the runs with and without that move end at the same cursor, and every
/// later action produces the same commands in both.
pub proof fn clear_line_then_move_back(
    wrapping: bool,
    origin: (u16, u16),
    size: (u16, u16),
    start: (u16, u16),
    before: Seq<RenderAction>,
    rest: Seq<RenderAction>,
)
    requires
        region_fits(origin, size),
        in_rect(at(actions_cmds(wrapping, origin, size, start, before).1), at(origin), at(size)),
    ensures
        ({
            let (b, cur) = actions_cmds(wrapping, origin, size, start, before);
            let clear = seq![RenderAction::ClearToNextLine];
            let back = seq![
                RenderAction::ClearToNextLine,
                RenderAction::MoveTo((cur.0 - origin.0) as u16, (cur.1 - origin.1) as u16),
            ];
            let cleared = blanks((right(origin, size) - cur.1) as nat).push(
                TermCmd::MoveTo(cur.0, cur.1),
            );
            let (z, end) = actions_cmds(wrapping, origin, size, cur, rest);
            &&& action_cmds(wrapping, origin, size, cur, RenderAction::ClearToNextLine) == (
                cleared,
                cur,
            )
            &&& cursor_after(cleared, at(cur)) == at(cur)
            &&& actions_cmds(wrapping, origin, size, start, before + back + rest) == (
                b + (cleared + seq![TermCmd::MoveTo(cur.0, cur.1)]) + z,
                end,
            )
            &&& actions_cmds(wrapping, origin, size, start, before + clear + rest) == (
                b + cleared + z,
                end,
            )
        }),
{
    let (b, cur) = actions_cmds(wrapping, origin, size, start, before);
    let clear = seq![RenderAction::ClearToNextLine];
    let back = seq![
        RenderAction::ClearToNextLine,
        RenderAction::MoveTo((cur.0 - origin.0) as u16, (cur.1 - origin.1) as u16),
    ];
    let cleared = blanks((right(origin, size) - cur.1) as nat).push(TermCmd::MoveTo(cur.0, cur.1));
    assert(back.drop_last() =~= clear);
    assert(clear.drop_last() =~= seq![]);
    assert(actions_cmds(wrapping, origin, size, cur, seq![]).0 =~= seq![]);
    assert(actions_cmds(wrapping, origin, size, cur, clear).0 =~= cleared);
    assert(actions_cmds(wrapping, origin, size, cur, back).0 =~= cleared + seq![
        TermCmd::MoveTo(cur.0, cur.1),
    ]);
    lemma_action_track(wrapping, origin, size, cur, RenderAction::ClearToNextLine);
    lemma_actions_concat(wrapping, origin, size, start, before, back);
    lemma_actions_concat(wrapping, origin, size, start, before + back, rest);
    lemma_actions_concat(wrapping, origin, size, start, before, clear);
    lemma_actions_concat(wrapping, origin, size, start, before + clear, rest);
}

/// A write never takes the cursor out of the region: with wrapping it stays on the
/// region's rows and at most one column past its last; without wrapping it prints
/// at most as many characters as are left before the right edge.
pub proof fn write_stays_in_bounds(
    origin: (u16, u16),
    size: (u16, u16),
    cur: (u16, u16),
    text: Seq<char>,
)
    requires
        region_fits(origin, size),
    ensures
        cursor_inside(origin, size, cur) ==> cursor_inside(
            origin,
            size,
            text_cmds(true, origin, size, cur, text).1,
        ),
        !cursor_inside(origin, size, cur) ==> text_cmds(true, origin, size, cur, text).1 == cur,
        text_cmds(false, origin, size, cur, text).0.len() <= available(origin, size, cur),
        forall|k: int|
            0 <= k < text_cmds(false, origin, size, cur, text).0.len() ==> #[trigger] text_cmds(
                false,
                origin,
                size,
                cur,
                text,
            ).0[k] is Print,
{
    if cursor_inside(origin, size, cur) {
        lemma_wrap_track(origin, size, cur, text);
    }
}

/// A cursor inside a non-empty region stays inside it through every action: the
/// cursor that a window keeps never leaves its region.
pub proof fn lemma_actions_inside(
    wrapping: bool,
    origin: (u16, u16),
    size: (u16, u16),
    cur: (u16, u16),
    actions: Seq<RenderAction>,
)
    requires
        region_fits(origin, size),
        size.0 > 0,
        size.1 > 0,
        cursor_inside(origin, size, cur),
    ensures
        cursor_inside(origin, size, actions_cmds(wrapping, origin, size, cur, actions).1),
    decreases actions.len(),
{
    if actions.len() > 0 {
        lemma_actions_inside(wrapping, origin, size, cur, actions.drop_last());
        let p = actions_cmds(wrapping, origin, size, cur, actions.drop_last()).1;
        match actions.last() {
            RenderAction::Write(t) => {
                if wrapping {
                    lemma_wrap_track(origin, size, p, t.contents@);
                }
            },
            _ => {},
        }
    }
}

/// The characters that `cmds` prints, in order.
pub open spec fn printed(cmds: Seq<TermCmd>) -> Seq<char>
    decreases cmds.len(),
{
    if cmds.len() == 0 {
        seq![]
    } else {
        match cmds.last() {
            TermCmd::Print(c) => printed(cmds.drop_last()).push(c),
            _ => printed(cmds.drop_last()),
        }
    }
}

/// How many characters a wrapping write from `cur` can still print: the rest of
/// the cursor's row and every full row below it.
pub open spec fn wrap_capacity(origin: (u16, u16), size: (u16, u16), cur: (u16, u16)) -> int {
    (right(origin, size) - cur.1) + (bottom(origin, size) - 1 - cur.0) * size.1
}

proof fn lemma_printed_concat(a: Seq<TermCmd>, b: Seq<TermCmd>)
    ensures
        printed(a + b) == printed(a) + printed(b),
    decreases b.len(),
{
    if b.len() > 0 {
        lemma_printed_concat(a, b.drop_last());
        assert((a + b).drop_last() =~= a + b.drop_last());
        assert((a + b).last() == b.last());
        if let TermCmd::Print(c) = b.last() {
            assert(printed(a) + printed(b.drop_last()).push(c) =~= (printed(a) + printed(
                b.drop_last(),
            )).push(c));
        }
    } else {
        assert(a + b =~= a);
        assert(printed(a) + seq![] =~= printed(a));
    }
}

proof fn lemma_wrap_char_capacity(origin: (u16, u16), size: (u16, u16), p: (u16, u16), c: char)
    requires
        region_fits(origin, size),
        cursor_inside(origin, size, p),
    ensures
        wrap_capacity(origin, size, p) >= 0,
        wrap_capacity(origin, size, p) > 0 ==> printed(wrap_char(origin, size, p, c).0) == seq![c]
            && wrap_capacity(origin, size, wrap_char(origin, size, p, c).1) == wrap_capacity(
            origin,
            size,
            p,
        ) - 1,
        wrap_capacity(origin, size, p) == 0 ==> wrap_char(origin, size, p, c) == (
            Seq::<TermCmd>::empty(),
            p,
        ),
{
    let b = bottom(origin, size);
    let r = right(origin, size);
    let w = size.1 as int;
    let k = b - 1 - p.0;
    assert(k * w >= 0) by (nonlinear_arith)
        requires
            k >= 0,
            w >= 0,
    ;
    let (cmds, q) = wrap_char(origin, size, p, c);
    if p.1 < r {
        assert(cmds.drop_last() =~= seq![]);
        assert(printed(cmds.drop_last()) =~= seq![]);
        assert(printed(cmds) =~= seq![c]);
        assert(wrap_capacity(origin, size, q) == (r - p.1 - 1) + k * w);
    } else if p.0 + 1 < b && w > 0 {
        assert(k * w >= w) by (nonlinear_arith)
            requires
                k >= 1,
                w >= 0,
        ;
        assert((k - 1) * w == k * w - w) by (nonlinear_arith);
        assert(cmds.drop_last() =~= seq![TermCmd::MoveTo((p.0 + 1) as u16, origin.1)]);
        assert(cmds.drop_last().drop_last() =~= seq![]);
        assert(printed(cmds.drop_last().drop_last()) =~= seq![]);
        assert(printed(cmds.drop_last()) =~= seq![]);
        assert(printed(cmds) =~= seq![c]);
        assert(wrap_capacity(origin, size, q) == (w - 1) + (k - 1) * w);
    } else {
        assert(k * w == 0) by (nonlinear_arith)
            requires
                k == 0 || w == 0,
        ;
    }
}

/// A wrapping write from a cursor inside the region prints exactly the first
/// characters of the text that fit in the rest of the region, in order, and drops
/// the others; a truncating write prints exactly the first characters that fit
/// before the right edge.
pub proof fn write_prints_what_fits(
    origin: (u16, u16),
    size: (u16, u16),
    cur: (u16, u16),
    text: Seq<char>,
)
    requires
        region_fits(origin, size),
        cursor_inside(origin, size, cur),
    ensures
        printed(text_cmds(true, origin, size, cur, text).0) == text.take(
            if text.len() < wrap_capacity(origin, size, cur) {
                text.len() as int
            } else {
                wrap_capacity(origin, size, cur)
            },
        ),
        text_cmds(false, origin, size, cur, text).0 == prints_of(
            text.take(
                if text.len() < available(origin, size, cur) {
                    text.len() as int
                } else {
                    available(origin, size, cur)
                },
            ),
        ),
{
    lemma_wrap_printed(origin, size, cur, text);
}

proof fn lemma_wrap_printed(origin: (u16, u16), size: (u16, u16), cur: (u16, u16), text: Seq<char>)
    requires
        region_fits(origin, size),
        cursor_inside(origin, size, cur),
    ensures
        ({
            let cap = wrap_capacity(origin, size, cur);
            let m = if text.len() < cap {
                text.len() as int
            } else {
                cap
            };
            &&& printed(wrap_text(origin, size, cur, text).0) == text.take(m)
            &&& wrap_capacity(origin, size, wrap_text(origin, size, cur, text).1) == cap - m
        }),
    decreases text.len(),
{
    let cap = wrap_capacity(origin, size, cur);
    lemma_wrap_char_capacity(origin, size, cur, ' ');
    if text.len() > 0 {
        let t = text.drop_last();
        lemma_wrap_printed(origin, size, cur, t);
        lemma_wrap_track(origin, size, cur, t);
        let (a, p) = wrap_text(origin, size, cur, t);
        let (b, q) = wrap_char(origin, size, p, text.last());
        lemma_wrap_char_capacity(origin, size, p, text.last());
        lemma_printed_concat(a, b);
        let m1 = if t.len() < cap {
            t.len() as int
        } else {
            cap
        };
        if wrap_capacity(origin, size, p) > 0 {
            assert(text.take(m1 + 1) =~= t.take(m1).push(text.last()));
        } else {
            assert(printed(b) =~= seq![]);
            assert(t.take(m1) =~= text.take(m1));
            assert(printed(a) + printed(b) =~= printed(a));
        }
    } else {
        assert(text.take(0) =~= seq![]);
    }
}

} // verus!
