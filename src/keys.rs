use vstd::prelude::*;
use crate::action::chars_of;
use crate::command::{BinOp, UnOp};

verus! {

/// A key as the calculator reads it.
#[derive(Debug, Clone, Copy, PartialEq, Eq)]
pub enum Key {
    Char(char),
    Esc,
    Backspace,
    Enter,
    Other,
}

/// The modifier keys held with a key: none, exactly shift, exactly control, or some
/// other combination.
#[derive(Debug, Clone, Copy, PartialEq, Eq)]
pub enum Modifiers {
    NoModifier,
    Shift,
    Control,
    Other,
}

/// What the calculator is asked to do. `N` is the type of its numbers.
#[derive(Debug, Clone, Copy, PartialEq)]
pub enum Command<N> {
    AppendToBfr(char),
    RemoveFromBfr,
    ClearBfr,
    BinOp(BinOp),
    UnOp(UnOp),
    /// Push a number onto the stack; with none given, the top number again.
    RotateIn(Option<N>),
    Exit,
    NoOp,
    /// Store the top number in the named register.
    Sto(char),
    /// Push the number held in the named register.
    Rcl(char),
    /// Forget the named register.
    Del(char),
}

/// `c` with an ASCII lower-case letter turned upper-case.
pub open spec fn ascii_upper(c: char) -> char {
    if 'a' <= c && c <= 'z' {
        ((c as u32) - 32) as char
    } else {
        c
    }
}

/// `c` with an ASCII upper-case letter turned lower-case.
pub open spec fn ascii_lower(c: char) -> char {
    if 'A' <= c && c <= 'Z' {
        ((c as u32) + 32) as char
    } else {
        c
    }
}

/// `c` is an ASCII letter.
pub open spec fn is_ascii_letter(c: char) -> bool {
    ('a' <= c && c <= 'z') || ('A' <= c && c <= 'Z')
}

/// The command of a character typed with shift: an operator, or the character
/// upper-cased into the input buffer.
pub open spec fn shift_command<N>(c: char) -> Command<N> {
    let u = ascii_upper(c);
    if u == '+' {
        Command::BinOp(BinOp::Add)
    } else if u == '*' {
        Command::BinOp(BinOp::Mul)
    } else if u == 'N' {
        Command::UnOp(UnOp::Neg)
    } else if u == 'S' {
        Command::BinOp(BinOp::Swp)
    } else if u == 'P' {
        Command::BinOp(BinOp::Pow)
    } else if u == 'R' {
        Command::BinOp(BinOp::Rt)
    } else if u == 'C' {
        Command::UnOp(UnOp::Pop)
    } else if u == 'E' {
        Command::BinOp(BinOp::Exp)
    } else if u == '?' {
        Command::BinOp(BinOp::IntDiv)
    } else if u == '%' {
        Command::BinOp(BinOp::Mod)
    } else {
        Command::AppendToBfr(u)
    }
}

/// The command of a character typed alone: subtraction, division, or the character
/// lower-cased into the input buffer.
pub open spec fn plain_command<N>(c: char) -> Command<N> {
    let l = ascii_lower(c);
    if l == '-' {
        Command::BinOp(BinOp::Sub)
    } else if l == '/' {
        Command::BinOp(BinOp::Div)
    } else {
        Command::AppendToBfr(l)
    }
}

/// The register that the input buffer names: its only character, when that is an
/// ASCII letter.
pub open spec fn register_of(buffer: Seq<char>) -> Option<char> {
    if buffer.len() == 1 && is_ascii_letter(buffer[0]) {
        Some(buffer[0])
    } else {
        None
    }
}

/// The command of a character typed with control: store, delete or recall the
/// register that the buffer names, if it names one.
pub open spec fn control_command<N>(c: char, buffer: Seq<char>) -> Command<N> {
    let l = ascii_lower(c);
    match register_of(buffer) {
        Some(r) => if l == 's' {
            Command::Sto(r)
        } else if l == 'd' {
            Command::Del(r)
        } else if l == 'r' {
            Command::Rcl(r)
        } else {
            Command::NoOp
        },
        None => Command::NoOp,
    }
}

/// The command of a typed character under the given modifiers.
pub open spec fn char_command<N>(c: char, modifiers: Modifiers, buffer: Seq<char>) -> Command<N> {
    match modifiers {
        Modifiers::Shift => shift_command(c),
        Modifiers::NoModifier => plain_command(c),
        Modifiers::Control => control_command(c, buffer),
        Modifiers::Other => Command::NoOp,
    }
}

/// The operator that a word names, if it names one.
pub open spec fn word_command<N>(w: Seq<char>) -> Option<Command<N>> {
    if w == "sqrt"@ {
        Some(Command::UnOp(UnOp::Sqrt))
    } else if w == "nrt"@ {
        Some(Command::BinOp(BinOp::Rt))
    } else if w == "sqr"@ {
        Some(Command::UnOp(UnOp::Sqr))
    } else if w == "pow"@ {
        Some(Command::BinOp(BinOp::Pow))
    } else if w == "neg"@ {
        Some(Command::UnOp(UnOp::Neg))
    } else if w == "swp"@ {
        Some(Command::BinOp(BinOp::Swp))
    } else if w == "sin"@ {
        Some(Command::UnOp(UnOp::Sin))
    } else if w == "cos"@ {
        Some(Command::UnOp(UnOp::Cos))
    } else if w == "tan"@ {
        Some(Command::UnOp(UnOp::Tan))
    } else if w == "asin"@ {
        Some(Command::UnOp(UnOp::Asin))
    } else if w == "acos"@ {
        Some(Command::UnOp(UnOp::Acos))
    } else if w == "atan"@ {
        Some(Command::UnOp(UnOp::Atan))
    } else if w == "deg"@ {
        Some(Command::UnOp(UnOp::Deg))
    } else if w == "rad"@ {
        Some(Command::UnOp(UnOp::Rad))
    } else {
        None
    }
}

/// The command of a key press with the input buffer holding `buffer`; `None` when
/// Enter confirms a buffer that names no operator, which is then to be read as a
/// number.
pub open spec fn key_command<N>(key: Key, modifiers: Modifiers, buffer: Seq<char>) -> Option<
    Command<N>,
> {
    match key {
        Key::Esc => Some(Command::Exit),
        Key::Backspace => Some(Command::RemoveFromBfr),
        Key::Char(c) => Some(char_command(c, modifiers, buffer)),
        Key::Enter => if buffer.len() == 0 {
            Some(Command::RotateIn(None))
        } else {
            word_command(buffer)
        },
        Key::Other => Some(Command::NoOp),
    }
}

fn to_upper(c: char) -> (r: char)
    ensures
        r == ascii_upper(c),
{
    if 'a' <= c && c <= 'z' {
        ((c as u8) - 32) as char
    } else {
        c
    }
}

fn to_lower(c: char) -> (r: char)
    ensures
        r == ascii_lower(c),
{
    if 'A' <= c && c <= 'Z' {
        ((c as u8) + 32) as char
    } else {
        c
    }
}

fn same_chars(a: &Vec<char>, b: &str) -> (r: bool)
    ensures
        r == (a@ == b@),
{
    let bc = chars_of(b);
    if a.len() != bc.len() {
        return false;
    }
    let mut i: usize = 0;
    while i < a.len()
        invariant
            bc@ == b@,
            a@.len() == bc@.len(),
            i <= a@.len(),
            forall|k: int| 0 <= k < i ==> a@[k] == bc@[k],
        decreases a@.len() - i,
    {
        if a[i] != bc[i] {
            assert(a@[i as int] != b@[i as int]);
            return false;
        }
        i = i + 1;
    }
    assert(a@ =~= b@);
    true
}

/// The command of a character typed under the given modifiers, with the input
/// buffer holding `buffer`.
pub fn process_char<N>(c: char, modifiers: Modifiers, buffer: &str) -> (r: Command<N>)
    ensures
        r == char_command::<N>(c, modifiers, buffer@),
{
    match modifiers {
        Modifiers::Shift => {
            let u = to_upper(c);
            if u == '+' {
                Command::BinOp(BinOp::Add)
            } else if u == '*' {
                Command::BinOp(BinOp::Mul)
            } else if u == 'N' {
                Command::UnOp(UnOp::Neg)
            } else if u == 'S' {
                Command::BinOp(BinOp::Swp)
            } else if u == 'P' {
                Command::BinOp(BinOp::Pow)
            } else if u == 'R' {
                Command::BinOp(BinOp::Rt)
            } else if u == 'C' {
                Command::UnOp(UnOp::Pop)
            } else if u == 'E' {
                Command::BinOp(BinOp::Exp)
            } else if u == '?' {
                Command::BinOp(BinOp::IntDiv)
            } else if u == '%' {
                Command::BinOp(BinOp::Mod)
            } else {
                Command::AppendToBfr(u)
            }
        },
        Modifiers::NoModifier => {
            let l = to_lower(c);
            if l == '-' {
                Command::BinOp(BinOp::Sub)
            } else if l == '/' {
                Command::BinOp(BinOp::Div)
            } else {
                Command::AppendToBfr(l)
            }
        },
        Modifiers::Control => {
            let l = to_lower(c);
            let chars = chars_of(buffer);
            if chars.len() != 1 {
                return Command::NoOp;
            }
            let r = chars[0];
            if !(('a' <= r && r <= 'z') || ('A' <= r && r <= 'Z')) {
                Command::NoOp
            } else if l == 's' {
                Command::Sto(r)
            } else if l == 'd' {
                Command::Del(r)
            } else if l == 'r' {
                Command::Rcl(r)
            } else {
                Command::NoOp
            }
        },
        Modifiers::Other => Command::NoOp,
    }
}

/// The operator that the word in the input buffer names, if it names one.
pub fn process_text<N>(buffer: &str) -> (r: Option<Command<N>>)
    ensures
        r == word_command::<N>(buffer@),
{
    let w = chars_of(buffer);
    if same_chars(&w, "sqrt") {
        Some(Command::UnOp(UnOp::Sqrt))
    } else if same_chars(&w, "nrt") {
        Some(Command::BinOp(BinOp::Rt))
    } else if same_chars(&w, "sqr") {
        Some(Command::UnOp(UnOp::Sqr))
    } else if same_chars(&w, "pow") {
        Some(Command::BinOp(BinOp::Pow))
    } else if same_chars(&w, "neg") {
        Some(Command::UnOp(UnOp::Neg))
    } else if same_chars(&w, "swp") {
        Some(Command::BinOp(BinOp::Swp))
    } else if same_chars(&w, "sin") {
        Some(Command::UnOp(UnOp::Sin))
    } else if same_chars(&w, "cos") {
        Some(Command::UnOp(UnOp::Cos))
    } else if same_chars(&w, "tan") {
        Some(Command::UnOp(UnOp::Tan))
    } else if same_chars(&w, "asin") {
        Some(Command::UnOp(UnOp::Asin))
    } else if same_chars(&w, "acos") {
        Some(Command::UnOp(UnOp::Acos))
    } else if same_chars(&w, "atan") {
        Some(Command::UnOp(UnOp::Atan))
    } else if same_chars(&w, "deg") {
        Some(Command::UnOp(UnOp::Deg))
    } else if same_chars(&w, "rad") {
        Some(Command::UnOp(UnOp::Rad))
    } else {
        None
    }
}

/// The command of a key press with the input buffer holding `buffer`. `None` when
/// Enter confirms a buffer that names no operator: the buffer is then to be read
/// as a number.
pub fn process_key<N>(key: Key, modifiers: Modifiers, buffer: &str) -> (r: Option<Command<N>>)
    ensures
        r == key_command::<N>(key, modifiers, buffer@),
{
    match key {
        Key::Esc => Some(Command::Exit),
        Key::Backspace => Some(Command::RemoveFromBfr),
        Key::Char(c) => Some(process_char(c, modifiers, buffer)),
        Key::Enter => {
            let chars = chars_of(buffer);
            if chars.len() == 0 {
                Some(Command::RotateIn(None))
            } else {
                process_text(buffer)
            }
        },
        Key::Other => Some(Command::NoOp),
    }
}

} // verus!
