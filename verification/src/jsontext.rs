//! JSON text, as serde_json writes a value in compact form (its `Display`
//! and `to_string`).
use vstd::prelude::*;
use crate::value::{Json, JsonV, JsonNumber, NumberKind, NumberKindV, json_list_view, json_members_view, lemma_json_list_view, lemma_json_members_view};
use crate::text::{decimal, signed_decimal, hex_digit, push_char, push_decimal, fmt_i128};

verus! {

/// How one character of a string is written inside quotes: `"` and `\`
/// behind a backslash, the control characters with a short escape where
/// JSON has one and as `\u00XX` otherwise, every other character as itself.
pub open spec fn escape_char(c: char) -> Seq<char> {
    if c == '"' {
        seq!['\\', '"']
    } else if c == '\\' {
        seq!['\\', '\\']
    } else if c == '\x08' {
        seq!['\\', 'b']
    } else if c == '\t' {
        seq!['\\', 't']
    } else if c == '\n' {
        seq!['\\', 'n']
    } else if c == '\x0c' {
        seq!['\\', 'f']
    } else if c == '\r' {
        seq!['\\', 'r']
    } else if (c as nat) < 0x20 {
        seq!['\\', 'u', '0', '0', hex_digit((c as nat) / 16), hex_digit((c as nat) % 16)]
    } else {
        seq![c]
    }
}

/// The characters of `s`, each escaped.
pub open spec fn escaped(s: Seq<char>) -> Seq<char>
    decreases s.len(),
{
    if s.len() == 0 {
        Seq::empty()
    } else {
        escaped(s.drop_last()) + escape_char(s.last())
    }
}

/// A JSON string literal.
pub open spec fn quoted(s: Seq<char>) -> Seq<char> {
    seq!['"'] + escaped(s) + seq!['"']
}

/// A JSON number.
pub open spec fn number_text(k: NumberKindV) -> Seq<char> {
    match k {
        NumberKindV::PosInt(u) => decimal(u as nat),
        NumberKindV::NegInt(i) => signed_decimal(i as int),
        NumberKindV::Float(f) => f.json,
    }
}

/// The compact JSON text of a value.
pub open spec fn json_text(v: JsonV) -> Seq<char>
    decreases v,
{
    match v {
        JsonV::Null => seq!['n', 'u', 'l', 'l'],
        JsonV::Bool(b) => if b {
            seq!['t', 'r', 'u', 'e']
        } else {
            seq!['f', 'a', 'l', 's', 'e']
        },
        JsonV::Number(n) => number_text(n.kind),
        JsonV::Str(s) => quoted(s),
        JsonV::Array(items) => seq!['['] + items_text(items) + seq![']'],
        JsonV::Object(ms) => seq!['{'] + members_text(ms) + seq!['}'],
    }
}

/// Array elements, separated by commas.
pub open spec fn items_text(items: Seq<JsonV>) -> Seq<char>
    decreases items,
{
    if items.len() == 0 {
        Seq::empty()
    } else if items.len() == 1 {
        json_text(items[0])
    } else {
        items_text(items.drop_last()) + seq![','] + json_text(items.last())
    }
}

/// Object members as `"key":value`, separated by commas.
pub open spec fn members_text(ms: Seq<(Seq<char>, JsonV)>) -> Seq<char>
    decreases ms,
{
    if ms.len() == 0 {
        Seq::empty()
    } else if ms.len() == 1 {
        quoted(ms[0].0) + seq![':'] + json_text(ms[0].1)
    } else {
        members_text(ms.drop_last()) + seq![','] + quoted(ms.last().0) + seq![':'] + json_text(
            ms.last().1,
        )
    }
}

fn hex_digit_char(n: u32) -> (c: char)
    requires
        n < 16,
    ensures
        c == hex_digit(n as nat),
{
    if n < 10 {
        ((48 + n) as u8) as char
    } else {
        ((87 + n) as u8) as char
    }
}

/// Appends `c` as it is written inside a JSON string.
fn write_escaped_char(out: &mut String, c: char)
    ensures
        final(out)@ == old(out)@ + escape_char(c),
{
    let ghost start = out@;
    if c == '"' {
        push_char(out, '\\');
        push_char(out, '"');
    } else if c == '\\' {
        push_char(out, '\\');
        push_char(out, '\\');
    } else if c == '\x08' {
        push_char(out, '\\');
        push_char(out, 'b');
    } else if c == '\t' {
        push_char(out, '\\');
        push_char(out, 't');
    } else if c == '\n' {
        push_char(out, '\\');
        push_char(out, 'n');
    } else if c == '\x0c' {
        push_char(out, '\\');
        push_char(out, 'f');
    } else if c == '\r' {
        push_char(out, '\\');
        push_char(out, 'r');
    } else if (c as u32) < 0x20 {
        let n = c as u32;
        push_char(out, '\\');
        push_char(out, 'u');
        push_char(out, '0');
        push_char(out, '0');
        let hi = hex_digit_char(n / 16);
        let lo = hex_digit_char(n % 16);
        push_char(out, hi);
        push_char(out, lo);
    } else {
        push_char(out, c);
    }
    assert(out@ =~= start + escape_char(c));
}

/// Appends `s` as a JSON string literal.
pub fn write_quoted(out: &mut String, s: &str)
    ensures
        final(out)@ == old(out)@ + quoted(s@),
{
    let ghost start = out@;
    let chars = crate::text::chars_of(s);
    push_char(out, '"');
    let mut i: usize = 0;
    while i < chars.len()
        invariant
            i <= chars@.len(),
            chars@ == s@,
            out@ == start + seq!['"'] + escaped(s@.take(i as int)),
        decreases chars.len() - i,
    {
        write_escaped_char(out, chars[i]);
        proof {
            let t = s@.take(i + 1);
            assert(t.drop_last() =~= s@.take(i as int));
        }
        i = i + 1;
    }
    assert(s@.take(chars.len() as int) =~= s@);
    push_char(out, '"');
    assert(out@ =~= start + quoted(s@));
}

fn write_number(out: &mut String, n: &JsonNumber)
    ensures
        final(out)@ == old(out)@ + number_text(crate::value::number_view(*n).kind),
{
    match &n.kind {
        NumberKind::PosInt(u) => push_decimal(out, *u as u128),
        NumberKind::NegInt(i) => {
            let t = fmt_i128(*i as i128);
            out.append(t.as_str());
        },
        NumberKind::Float(f) => out.append(f.json.as_str()),
    }
}

/// Appends the compact JSON text of `j`.
pub fn write_json_text(out: &mut String, j: &Json)
    ensures
        final(out)@ == old(out)@ + json_text(j@),
    decreases j, 1nat,
{
    let ghost start = out@;
    match j {
        Json::Null => {
            out.append("null");
            proof {
                reveal_strlit("null");
            }
        },
        Json::Bool(b) => {
            if *b {
                out.append("true");
                proof {
                    reveal_strlit("true");
                }
            } else {
                out.append("false");
                proof {
                    reveal_strlit("false");
                }
            }
        },
        Json::Number(n) => write_number(out, n),
        Json::Str(s) => write_quoted(out, s.as_str()),
        Json::Array(items) => {
            push_char(out, '[');
            write_json_items(out, items);
            push_char(out, ']');
            assert(out@ =~= start + json_text(j@));
        },
        Json::Object(ms) => {
            push_char(out, '{');
            write_json_members(out, ms);
            push_char(out, '}');
            assert(out@ =~= start + json_text(j@));
        },
    }
}

#[verifier::loop_isolation(false)]
fn write_json_items(out: &mut String, items: &Vec<Json>)
    ensures
        final(out)@ == old(out)@ + items_text(json_list_view(items@)),
    decreases items, 0nat,
{
    let ghost start = out@;
    proof {
        lemma_json_list_view(items@);
    }
    let mut i: usize = 0;
    while i < items.len()
        invariant
            i <= items.len(),
            out@ == start + items_text(json_list_view(items@.take(i as int))),
        decreases items.len() - i,
    {
        if i > 0 {
            push_char(out, ',');
        }
        proof {
            assert(decreases_to!(items => items@[i as int]));
        }
        write_json_text(out, &items[i]);
        proof {
            let t = items@.take(i + 1);
            assert(t.drop_last() =~= items@.take(i as int));
            lemma_json_list_view(t);
            lemma_json_list_view(items@.take(i as int));
            let lv = json_list_view(t);
            assert(lv.drop_last() =~= json_list_view(items@.take(i as int)));
            if i == 0 {
                assert(lv.len() == 1);
            }
        }
        i = i + 1;
    }
    assert(items@.take(items.len() as int) =~= items@);
}

#[verifier::loop_isolation(false)]
fn write_json_members(out: &mut String, ms: &Vec<(String, Json)>)
    ensures
        final(out)@ == old(out)@ + members_text(json_members_view(ms@)),
    decreases ms, 0nat,
{
    let ghost start = out@;
    proof {
        lemma_json_members_view(ms@);
    }
    let mut i: usize = 0;
    while i < ms.len()
        invariant
            i <= ms.len(),
            out@ == start + members_text(json_members_view(ms@.take(i as int))),
        decreases ms.len() - i,
    {
        if i > 0 {
            push_char(out, ',');
        }
        write_quoted(out, ms[i].0.as_str());
        push_char(out, ':');
        proof {
            assert(decreases_to!(ms => ms@[i as int]));
            assert(decreases_to!(ms@[i as int] => ms@[i as int].1));
        }
        write_json_text(out, &ms[i].1);
        proof {
            let t = ms@.take(i + 1);
            assert(t.drop_last() =~= ms@.take(i as int));
            lemma_json_members_view(t);
            lemma_json_members_view(ms@.take(i as int));
            let lv = json_members_view(t);
            assert(lv.drop_last() =~= json_members_view(ms@.take(i as int)));
            if i == 0 {
                assert(lv.len() == 1);
            }
        }
        i = i + 1;
    }
    assert(ms@.take(ms.len() as int) =~= ms@);
}

/// The compact JSON text of `j`, as serde_json's `to_string` writes it.
pub fn json_to_text(j: &Json) -> (r: String)
    ensures
        r@ == json_text(j@),
{
    let mut s = String::new();
    write_json_text(&mut s, j);
    s
}

/// The indentation one level deeper than `ind`.
pub open spec fn deeper(ind: Seq<char>) -> Seq<char> {
    ind + seq![' ', ' ']
}

/// The JSON text of a value as serde_json's pretty printer writes it on a
/// line indented by `ind`: each array element and object member on a line
/// of its own, two spaces deeper, empty arrays and objects as `[]` and `{}`.
pub open spec fn pretty_text(v: JsonV, ind: Seq<char>) -> Seq<char>
    decreases v,
{
    match v {
        JsonV::Array(items) => if items.len() == 0 {
            seq!['[', ']']
        } else {
            seq!['['] + pretty_items(items, deeper(ind)) + seq!['\n'] + ind + seq![']']
        },
        JsonV::Object(ms) => if ms.len() == 0 {
            seq!['{', '}']
        } else {
            seq!['{'] + pretty_members(ms, deeper(ind)) + seq!['\n'] + ind + seq!['}']
        },
        _ => json_text(v),
    }
}

/// Array elements, each on a new line indented by `ind`, separated by
/// commas.
pub open spec fn pretty_items(items: Seq<JsonV>, ind: Seq<char>) -> Seq<char>
    decreases items,
{
    if items.len() == 0 {
        Seq::empty()
    } else {
        pretty_items(items.drop_last(), ind) + (if items.len() == 1 {
            seq!['\n']
        } else {
            seq![',', '\n']
        }) + ind + pretty_text(items.last(), ind)
    }
}

/// Object members as `"key": value`, each on a new line indented by `ind`.
pub open spec fn pretty_members(ms: Seq<(Seq<char>, JsonV)>, ind: Seq<char>) -> Seq<char>
    decreases ms,
{
    if ms.len() == 0 {
        Seq::empty()
    } else {
        pretty_members(ms.drop_last(), ind) + (if ms.len() == 1 {
            seq!['\n']
        } else {
            seq![',', '\n']
        }) + ind + quoted(ms.last().0) + seq![':', ' '] + pretty_text(ms.last().1, ind)
    }
}

fn deeper_exec(ind: &str) -> (r: String)
    ensures
        r@ == deeper(ind@),
{
    let mut s = String::new();
    s.append(ind);
    push_char(&mut s, ' ');
    push_char(&mut s, ' ');
    assert(s@ =~= deeper(ind@));
    s
}

/// Appends the pretty JSON text of `j` on a line indented by `ind`.
pub fn write_pretty(out: &mut String, j: &Json, ind: &str)
    ensures
        final(out)@ == old(out)@ + pretty_text(j@, ind@),
    decreases j, 1nat,
{
    let ghost start = out@;
    match j {
        Json::Array(items) => {
            proof {
                lemma_json_list_view(items@);
            }
            if items.len() == 0 {
                push_char(out, '[');
                push_char(out, ']');
            } else {
                push_char(out, '[');
                let d = deeper_exec(ind);
                write_pretty_items(out, items, d.as_str());
                push_char(out, '\n');
                out.append(ind);
                push_char(out, ']');
            }
            assert(out@ =~= start + pretty_text(j@, ind@));
        },
        Json::Object(ms) => {
            proof {
                lemma_json_members_view(ms@);
            }
            if ms.len() == 0 {
                push_char(out, '{');
                push_char(out, '}');
            } else {
                push_char(out, '{');
                let d = deeper_exec(ind);
                write_pretty_members(out, ms, d.as_str());
                push_char(out, '\n');
                out.append(ind);
                push_char(out, '}');
            }
            assert(out@ =~= start + pretty_text(j@, ind@));
        },
        _ => write_json_text(out, j),
    }
}

#[verifier::loop_isolation(false)]
fn write_pretty_items(out: &mut String, items: &Vec<Json>, ind: &str)
    ensures
        final(out)@ == old(out)@ + pretty_items(json_list_view(items@), ind@),
    decreases items, 0nat,
{
    let ghost start = out@;
    proof {
        lemma_json_list_view(items@);
    }
    let mut i: usize = 0;
    while i < items.len()
        invariant
            i <= items.len(),
            out@ == start + pretty_items(json_list_view(items@.take(i as int)), ind@),
        decreases items.len() - i,
    {
        if i == 0 {
            push_char(out, '\n');
        } else {
            push_char(out, ',');
            push_char(out, '\n');
        }
        out.append(ind);
        proof {
            assert(decreases_to!(items => items@[i as int]));
        }
        write_pretty(out, &items[i], ind);
        proof {
            let t = items@.take(i + 1);
            assert(t.drop_last() =~= items@.take(i as int));
            lemma_json_list_view(t);
            lemma_json_list_view(items@.take(i as int));
            let lv = json_list_view(t);
            assert(lv.drop_last() =~= json_list_view(items@.take(i as int)));
            assert(out@ =~= start + pretty_items(lv, ind@));
        }
        i = i + 1;
    }
    assert(items@.take(items.len() as int) =~= items@);
}

#[verifier::loop_isolation(false)]
fn write_pretty_members(out: &mut String, ms: &Vec<(String, Json)>, ind: &str)
    ensures
        final(out)@ == old(out)@ + pretty_members(json_members_view(ms@), ind@),
    decreases ms, 0nat,
{
    let ghost start = out@;
    proof {
        lemma_json_members_view(ms@);
    }
    let mut i: usize = 0;
    while i < ms.len()
        invariant
            i <= ms.len(),
            out@ == start + pretty_members(json_members_view(ms@.take(i as int)), ind@),
        decreases ms.len() - i,
    {
        if i == 0 {
            push_char(out, '\n');
        } else {
            push_char(out, ',');
            push_char(out, '\n');
        }
        out.append(ind);
        write_quoted(out, ms[i].0.as_str());
        push_char(out, ':');
        push_char(out, ' ');
        proof {
            assert(decreases_to!(ms => ms@[i as int]));
            assert(decreases_to!(ms@[i as int] => ms@[i as int].1));
        }
        write_pretty(out, &ms[i].1, ind);
        proof {
            let t = ms@.take(i + 1);
            assert(t.drop_last() =~= ms@.take(i as int));
            lemma_json_members_view(t);
            lemma_json_members_view(ms@.take(i as int));
            let lv = json_members_view(t);
            assert(lv.drop_last() =~= json_members_view(ms@.take(i as int)));
            assert(out@ =~= start + pretty_members(lv, ind@));
        }
        i = i + 1;
    }
    assert(ms@.take(ms.len() as int) =~= ms@);
}

/// The pretty JSON text of `j`, as serde_json's `to_string_pretty` writes it.
pub fn json_to_pretty_text(j: &Json) -> (r: String)
    ensures
        r@ == pretty_text(j@, Seq::empty()),
{
    let mut s = String::new();
    proof {
        reveal_strlit("");
        assert(""@ =~= Seq::<char>::empty());
    }
    write_pretty(&mut s, j, "");
    s
}

} // verus!
