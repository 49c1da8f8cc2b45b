use vstd::prelude::*;

verus! {

#[verifier::external_type_specification]
#[verifier::external_body]
pub struct ExColor(crossterm::style::Color);

/// A terminal text attribute applied before a write.
#[derive(Debug, Clone, Copy, PartialEq, Eq)]
pub enum StyleProperty {
    FgColor(crossterm::style::Color),
    BgColor(crossterm::style::Color),
}

/// The characters of `s`, in order.
pub fn chars_of(s: &str) -> (r: Vec<char>)
    ensures
        r@ == s@,
{
    let mut chars: Vec<char> = Vec::new();
    for c in it: s.chars()
        invariant
            chars@ == it.seq().take(it.index() as int),
    {
        chars.push(c);
    }
    chars
}

/// Text to write, with the style properties to apply first, in order.
#[derive(Debug)]
pub struct PrettyString {
    pub contents: Vec<char>,
    pub style: Vec<StyleProperty>,
}

impl PrettyString {
    /// Unstyled text holding the characters of `contents`.
    pub fn new(contents: String) -> (r: PrettyString)
        ensures
            r.contents@ == contents@,
            r.style@.len() == 0,
    {
        PrettyString { contents: chars_of(contents.as_str()), style: Vec::new() }
    }

    /// The same text with `style` appended to its style properties.
    pub fn style(self, style: StyleProperty) -> (r: Self)
        ensures
            r.contents@ == self.contents@,
            r.style@ == self.style@.push(style),
    {
        let mut s = self;
        s.style.push(style);
        s
    }
}

/// A drawing instruction of a pane, in the pane's local frame.
#[derive(Debug)]
pub enum RenderAction {
    /// Move to (row, col), clamped to the pane.
    MoveTo(u16, u16),
    /// Advance the given number of rows and go back to the pane's first column.
    MoveToNextLine(u16),
    /// Blank the rest of the current row of the pane.
    ClearToNextLine,
    /// Blank the rest of the pane from the cursor on.
    ClearToEnd,
    /// Write styled text.
    Write(PrettyString),
    HideCursor,
    ShowCursor,
}

} // verus!
