use tui_windows::{process_char, process_key, process_text, BinOp, Command, Key, Modifiers, UnOp};

fn key(k: Key, m: Modifiers, buffer: &str) -> Option<Command<f64>> {
    process_key::<f64>(k, m, buffer)
}

#[test]
fn shifted_characters_name_operators() {
    assert_eq!(process_char::<f64>('+', Modifiers::Shift, ""), Command::BinOp(BinOp::Add));
    assert_eq!(process_char::<f64>('n', Modifiers::Shift, ""), Command::UnOp(UnOp::Neg));
    assert_eq!(process_char::<f64>('C', Modifiers::Shift, ""), Command::UnOp(UnOp::Pop));
    assert_eq!(process_char::<f64>('%', Modifiers::Shift, ""), Command::BinOp(BinOp::Mod));
    assert_eq!(process_char::<f64>('x', Modifiers::Shift, ""), Command::AppendToBfr('X'));
}

#[test]
fn plain_characters_go_to_the_buffer() {
    assert_eq!(process_char::<f64>('-', Modifiers::NoModifier, ""), Command::BinOp(BinOp::Sub));
    assert_eq!(process_char::<f64>('/', Modifiers::NoModifier, ""), Command::BinOp(BinOp::Div));
    assert_eq!(process_char::<f64>('7', Modifiers::NoModifier, ""), Command::AppendToBfr('7'));
    assert_eq!(process_char::<f64>('Q', Modifiers::NoModifier, ""), Command::AppendToBfr('q'));
}

#[test]
fn control_keys_use_the_register_in_the_buffer() {
    assert_eq!(process_char::<f64>('s', Modifiers::Control, "a"), Command::Sto('a'));
    assert_eq!(process_char::<f64>('D', Modifiers::Control, "Z"), Command::Del('Z'));
    assert_eq!(process_char::<f64>('r', Modifiers::Control, "k"), Command::Rcl('k'));
    assert_eq!(process_char::<f64>('s', Modifiers::Control, "ab"), Command::NoOp);
    assert_eq!(process_char::<f64>('s', Modifiers::Control, "1"), Command::NoOp);
    assert_eq!(process_char::<f64>('s', Modifiers::Control, "é"), Command::NoOp);
    assert_eq!(process_char::<f64>('x', Modifiers::Control, "a"), Command::NoOp);
    assert_eq!(process_char::<f64>('s', Modifiers::Other, "a"), Command::NoOp);
}

#[test]
fn words_name_operators() {
    assert_eq!(process_text::<f64>("sqrt"), Some(Command::UnOp(UnOp::Sqrt)));
    assert_eq!(process_text::<f64>("nrt"), Some(Command::BinOp(BinOp::Rt)));
    assert_eq!(process_text::<f64>("acos"), Some(Command::UnOp(UnOp::Acos)));
    assert_eq!(process_text::<f64>("rad"), Some(Command::UnOp(UnOp::Rad)));
    assert_eq!(process_text::<f64>("sq"), None);
    assert_eq!(process_text::<f64>("3.5"), None);
}

#[test]
fn keys_map_to_commands() {
    assert_eq!(key(Key::Esc, Modifiers::NoModifier, "12"), Some(Command::Exit));
    assert_eq!(key(Key::Backspace, Modifiers::NoModifier, "12"), Some(Command::RemoveFromBfr));
    assert_eq!(key(Key::Enter, Modifiers::NoModifier, ""), Some(Command::RotateIn(None)));
    assert_eq!(key(Key::Enter, Modifiers::NoModifier, "swp"), Some(Command::BinOp(BinOp::Swp)));
    assert_eq!(key(Key::Enter, Modifiers::NoModifier, "2.5"), None);
    assert_eq!(key(Key::Char('*'), Modifiers::Shift, ""), Some(Command::BinOp(BinOp::Mul)));
    assert_eq!(key(Key::Other, Modifiers::Control, "a"), Some(Command::NoOp));
}
