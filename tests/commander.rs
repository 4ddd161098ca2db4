use fracture::banner::command_chain_to_string;
use fracture::chars::key_to_vec;
use fracture::commander::Commander;
use fracture::key::Key;
use fracture::vim_mode::Mode;
use im::Vector;

fn text(v: &Vector<char>) -> String {
    v.iter().collect()
}

#[test]
fn leader_fires_on_second_space() {
    let commander = Commander::new(42);
    let mut mode = Mode::Normal;
    let mut chain = Vector::new();
    let first = commander.on_key_press(&mut mode, &mut chain, Key::Char(' '));
    assert!(first.is_none());
    assert_eq!(text(&chain), " ");
    let second = commander.on_key_press(&mut mode, &mut chain, Key::Char(' '));
    assert_eq!(second.map(|a| *a), Some(42));
    assert!(chain.is_empty());
    assert_eq!(mode, Mode::Normal);
}

#[test]
fn escape_mid_chord_resets() {
    let commander = Commander::new(1);
    let mut mode = Mode::Normal;
    let mut chain = key_to_vec("a".to_owned());
    let fired = commander.on_key_press(&mut mode, &mut chain, Key::Esc);
    assert!(fired.is_none());
    assert!(chain.is_empty());
    assert_eq!(mode, Mode::Normal);

    let mut mode = Mode::Insert;
    let mut chain = key_to_vec(" ".to_owned());
    assert!(commander.on_key_press(&mut mode, &mut chain, Key::Esc).is_none());
    assert_eq!(mode, Mode::Normal);
    assert!(chain.is_empty());
}

#[test]
fn unmapped_symbol_clears_buffer() {
    let commander = Commander::new(1);
    let mut mode = Mode::Normal;
    let mut chain = Vector::new();
    assert!(commander.on_key_press(&mut mode, &mut chain, Key::Char('x')).is_none());
    assert!(chain.is_empty());
    assert!(commander.on_key_press(&mut mode, &mut chain, Key::Char(' ')).is_none());
    assert_eq!(text(&chain), " ");
    assert!(commander.on_key_press(&mut mode, &mut chain, Key::Char('q')).is_none());
    assert!(chain.is_empty());
    assert_eq!(mode, Mode::Normal);
}

#[test]
fn other_modes_pass_symbols_through() {
    let commander = Commander::new(1);
    for start in [Mode::Insert, Mode::Visual] {
        let mut mode = start;
        let mut chain = Vector::new();
        assert!(commander.on_key_press(&mut mode, &mut chain, Key::Char(' ')).is_none());
        assert!(commander.on_key_press(&mut mode, &mut chain, Key::Char(' ')).is_none());
        assert_eq!(mode, start);
        assert!(chain.is_empty());
    }
}

#[test]
fn action_fires_each_time() {
    let commander = Commander::new("toggle");
    let mut mode = Mode::Normal;
    let mut chain = Vector::new();
    let mut fired = 0;
    for _ in 0..6 {
        if let Some(a) = commander.on_key_press(&mut mode, &mut chain, Key::Char(' ')) {
            assert_eq!(*a, "toggle");
            fired += 1;
        }
    }
    assert_eq!(fired, 3);
}

#[test]
fn mode_names() {
    assert_eq!(Mode::Normal.name(), "normal");
    assert_eq!(Mode::Insert.name(), "insert");
    assert_eq!(Mode::Visual.name(), "visual");
}

#[test]
fn chain_text_marks_spaces() {
    assert_eq!(command_chain_to_string(&Vector::new()), "");
    assert_eq!(command_chain_to_string(&key_to_vec("  ".to_owned())), "<SPC> <SPC>");
    assert_eq!(command_chain_to_string(&key_to_vec("ab c".to_owned())), "a b <SPC> c");
    assert_eq!(command_chain_to_string(&key_to_vec("x".to_owned())), "x");
}
