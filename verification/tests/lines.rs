use nasir::types::terminal_line::{InteractionType, TerminalLine};

#[test]
fn line_maps_and_lengths() {
    let l = TerminalLine::from_text(String::from("ab"));
    assert_eq!(l.max_visible_length(), 2);
    let l = l.map(|s| format!("\x1b[1m{s}\x1b[0m"));
    // the escapes do not count toward the visible length
    assert_eq!(l.max_visible_length(), 2);
    assert_eq!(l.display(false), String::from(" \x1b[1mab\x1b[0m"));
    let l = l.map_focused(|s| format!("{s}!"));
    assert_eq!(l.display(true), String::from(">\x1b[1mab\x1b[0m!"));
    assert_eq!(l.max_visible_length(), 3);
    let l = l.map_unfocused(|_| String::new());
    assert_eq!(l.display(false), String::from(" "));
    assert!(!l.is_empty());
}

#[test]
fn line_padding() {
    let l = TerminalLine::from_text(String::from("\x1b[1mab\x1b[0m"));
    let l = l.visible_right_pad(5);
    assert_eq!(l.max_visible_length(), 5);
    assert_eq!(l.display(false), String::from(" \x1b[1mab\x1b[0m   "));
}

#[test]
fn line_id_and_interaction() {
    let l = TerminalLine::from_text(String::from("x"));
    assert!(!l.check_id("a"));
    let l = l.with_id(String::from("a"));
    assert!(l.check_id("a"));
    assert!(matches!(l.interaction(), InteractionType::Nothing));
    let l = l.with_interaction(InteractionType::Link(String::from("u")));
    assert!(matches!(l.interaction(), InteractionType::Link(_)));
    let empty = TerminalLine::from_text(String::new());
    assert!(empty.is_empty());
}
