//! ANSI styling of the listing's text, and the rule that decides whether
//! styling is on.
use vstd::prelude::*;

verus! {

/// Decides whether output is styled. `no_color` (the `NO_COLOR` variable is
/// set) wins over `force_color` (`FORCE_COLOR` is set), which wins over the
/// `--disable-color` flag; with none of them, styling is on.
pub fn resolve_color_enabled(no_color: bool, force_color: bool, disable_color_flag: bool) -> (r: bool)
    ensures
        r == (!no_color && (force_color || !disable_color_flag)),
{
    if no_color {
        false
    } else if force_color {
        true
    } else {
        !disable_color_flag
    }
}

/// The styles the listing uses.
#[derive(Clone, Copy, PartialEq, Eq, Debug)]
pub enum Style {
    Bold,
    Cyan,
    Yellow,
    Green,
}

/// The ANSI escape sequence that turns a style on.
pub open spec fn style_code(style: Style) -> Seq<char> {
    match style {
        Style::Bold => seq!['\x1b', '[', '1', 'm'],
        Style::Cyan => seq!['\x1b', '[', '3', '6', 'm'],
        Style::Yellow => seq!['\x1b', '[', '3', '3', 'm'],
        Style::Green => seq!['\x1b', '[', '3', '2', 'm'],
    }
}

/// The ANSI escape sequence that turns every style off.
pub open spec fn reset_code() -> Seq<char> {
    seq!['\x1b', '[', '0', 'm']
}

/// `s` wrapped in the style's escape sequences when styling is on, else `s`.
pub open spec fn styled(enabled: bool, style: Style, s: Seq<char>) -> Seq<char> {
    if enabled {
        style_code(style) + s + reset_code()
    } else {
        s
    }
}

fn code_str(style: Style) -> (r: &'static str)
    ensures
        r@ == style_code(style),
{
    match style {
        Style::Bold => {
            let r = "\x1b[1m";
            proof {
                reveal_strlit("\x1b[1m");
            }
            r
        },
        Style::Cyan => {
            let r = "\x1b[36m";
            proof {
                reveal_strlit("\x1b[36m");
            }
            r
        },
        Style::Yellow => {
            let r = "\x1b[33m";
            proof {
                reveal_strlit("\x1b[33m");
            }
            r
        },
        Style::Green => {
            let r = "\x1b[32m";
            proof {
                reveal_strlit("\x1b[32m");
            }
            r
        },
    }
}

/// Wraps `s` in the style's escape sequences when `enabled`.
pub fn colorize(enabled: bool, style: Style, s: &str) -> (r: String)
    ensures
        r@ == styled(enabled, style, s@),
{
    if enabled {
        let mut out = String::from_str(code_str(style));
        out.append(s);
        let reset = "\x1b[0m";
        proof {
            reveal_strlit("\x1b[0m");
        }
        out.append(reset);
        out
    } else {
        String::from_str(s)
    }
}

/// Bold text (service names, section headings).
pub fn bold(enabled: bool, s: &str) -> (r: String)
    ensures
        r@ == styled(enabled, Style::Bold, s@),
{
    colorize(enabled, Style::Bold, s)
}

/// Cyan text (operation names).
pub fn cyan(enabled: bool, s: &str) -> (r: String)
    ensures
        r@ == styled(enabled, Style::Cyan, s@),
{
    colorize(enabled, Style::Cyan, s)
}

/// Yellow text (field names).
pub fn yellow(enabled: bool, s: &str) -> (r: String)
    ensures
        r@ == styled(enabled, Style::Yellow, s@),
{
    colorize(enabled, Style::Yellow, s)
}

/// Green text (types).
pub fn green(enabled: bool, s: &str) -> (r: String)
    ensures
        r@ == styled(enabled, Style::Green, s@),
{
    colorize(enabled, Style::Green, s)
}

/// One field of a listing: the indent, the field name in yellow, a space,
/// the type in green, and a newline.
pub open spec fn field_line_spec(enabled: bool, indent: Seq<char>, name: Seq<char>, typ: Seq<char>) -> Seq<char> {
    indent + styled(enabled, Style::Yellow, name) + seq![' '] + styled(enabled, Style::Green, typ)
        + seq!['\n']
}

/// One field of a listing: `{indent}{name} {typ}\n` with the name in yellow
/// and the type in green.
pub fn field_line(enabled: bool, indent: &str, name: &str, typ: &str) -> (r: String)
    ensures
        r@ == field_line_spec(enabled, indent@, name@, typ@),
{
    let mut out = String::from_str(indent);
    let n = yellow(enabled, name);
    out.append(n.as_str());
    out.append(" ");
    let t = green(enabled, typ);
    out.append(t.as_str());
    out.append("\n");
    proof {
        reveal_strlit(" ");
        reveal_strlit("\n");
    }
    out
}

} // verus!
