use csilctl::color::{bold, colorize, cyan, field_line, green, resolve_color_enabled, yellow, Style};

#[test]
fn defaults_to_enabled() {
    assert!(resolve_color_enabled(false, false, false));
}

#[test]
fn disable_color_flag_disables() {
    assert!(!resolve_color_enabled(false, false, true));
}

#[test]
fn no_color_disables_even_without_flag() {
    assert!(!resolve_color_enabled(true, false, false));
}

#[test]
fn force_color_enables_over_disable_flag() {
    assert!(resolve_color_enabled(false, true, true));
}

#[test]
fn no_color_wins_over_force_color() {
    assert!(!resolve_color_enabled(true, true, false));
}

#[test]
fn no_color_wins_over_force_color_and_disable_flag() {
    assert!(!resolve_color_enabled(true, true, true));
}

#[test]
fn styles_wrap_text_in_escape_sequences() {
    assert_eq!(bold(true, "x"), "\x1b[1mx\x1b[0m");
    assert_eq!(cyan(true, "x"), "\x1b[36mx\x1b[0m");
    assert_eq!(yellow(true, "x"), "\x1b[33mx\x1b[0m");
    assert_eq!(green(true, "x"), "\x1b[32mx\x1b[0m");
    assert_eq!(colorize(false, Style::Bold, "x"), "x");
}

#[test]
fn field_line_puts_name_and_type_on_one_line() {
    assert_eq!(field_line(false, "  ", "id", "text"), "  id text\n");
    assert_eq!(field_line(true, "", "id", "text"), "\x1b[33mid\x1b[0m \x1b[32mtext\x1b[0m\n");
}
