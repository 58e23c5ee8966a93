//! What encoding a group, labelling an operation, reading a yes/no answer
//! and filling in a default do, stated in terms of their inputs.
use vstd::prelude::*;
use crate::csil::{Rule, GroupEntry, GroupKey, Occurrence, Literal, ServiceOp, Direction};
use crate::list::print_operation;
use crate::payload::{encode_group, encode_fields, encode_builtin, last_catch_all, member_from, member_get, is_finite};
use crate::prompt::{AskV, AskKindV, answer_json, literal_json};
use crate::text::{trim, decimal, signed_decimal, digit_char, hex_digit};
use crate::jsontext::{json_text, items_text, members_text, quoted, escaped, escape_char, number_text, pretty_text, pretty_items, pretty_members, deeper};
use crate::value::NumberKindV;
use crate::value::{JsonV, CborV, float_view};
use crate::payload::EncodeErrorV;

verus! {

proof fn lemma_absent_member(ms: Seq<(Seq<char>, JsonV)>, k: Seq<char>, i: int)
    requires
        0 <= i,
        forall|x: int| 0 <= x < ms.len() ==> #[trigger] ms[x].0 != k,
    ensures
        member_from(ms, k, i) is None,
    decreases ms.len() - i,
{
    if i < ms.len() {
        lemma_absent_member(ms, k, i + 1);
    }
}

proof fn lemma_fields_without_absent_optional(
    rules: Seq<Rule>,
    ms: Seq<(Seq<char>, JsonV)>,
    es: Seq<GroupEntry>,
    k: int,
    f: nat,
)
    requires
        0 <= k < es.len(),
        es[k].occurrence == Some(Occurrence::Optional),
        es[k].key matches Some(GroupKey::Bare(n)) && forall|x: int| 0 <= x < ms.len() ==> #[trigger] ms[x].0 != n@,
    ensures
        encode_fields(rules, ms, es, f) == encode_fields(rules, ms, es.remove(k), f),
    decreases es.len(),
{
    if k == es.len() - 1 {
        assert(es.remove(k) =~= es.drop_last());
        let n = es[k].key->Some_0->Bare_0;
        lemma_absent_member(ms, n@, 0);
        assert(member_get(ms, n@) is None);
    } else {
        let t = es.remove(k);
        assert(t.drop_last() =~= es.drop_last().remove(k));
        assert(t.last() == es.last());
        assert(es.drop_last()[k] == es[k]);
        lemma_fields_without_absent_optional(rules, ms, es.drop_last(), k, f);
    }
}

proof fn lemma_no_catch_all(es: Seq<GroupEntry>)
    requires
        forall|i: int| 0 <= i < es.len() ==> !((#[trigger] es[i]).key matches Some(GroupKey::Type(_))),
    ensures
        last_catch_all(es) is None,
    decreases es.len(),
{
    if es.len() > 0 {
        assert(es[es.len() - 1] == es.last());
        assert forall|i: int| 0 <= i < es.drop_last().len() implies !((#[trigger] es.drop_last()[i]).key matches Some(
            GroupKey::Type(_),
        )) by {
            assert(es.drop_last()[i] == es[i]);
        }
        lemma_no_catch_all(es.drop_last());
    }
}

/// An optional field (`? name: type`) that the object lacks is left out:
/// encoding an object against a group of named fields gives the same as
/// against the group without that field, so its absence never makes the
/// encoding fail, and the map holds exactly the fields present.
pub proof fn law_absent_optional_field_left_out(
    rules: Seq<Rule>,
    ms: Seq<(Seq<char>, JsonV)>,
    es: Seq<GroupEntry>,
    k: int,
    f: nat,
)
    requires
        0 <= k < es.len(),
        forall|i: int| 0 <= i < es.len() ==> !((#[trigger] es[i]).key matches Some(GroupKey::Type(_))),
        es[k].occurrence == Some(Occurrence::Optional),
        es[k].key matches Some(GroupKey::Bare(n)) && forall|x: int| 0 <= x < ms.len() ==> #[trigger] ms[x].0 != n@,
    ensures
        encode_group(rules, JsonV::Object(ms), es, f) == encode_group(rules, JsonV::Object(ms), es.remove(k), f),
{
    lemma_fields_without_absent_optional(rules, ms, es, k, f);
    lemma_no_catch_all(es);
    let t = es.remove(k);
    assert forall|i: int| 0 <= i < t.len() implies !((#[trigger] t[i]).key matches Some(GroupKey::Type(_))) by {
        if i < k {
            assert(t[i] == es[i]);
        } else {
            assert(t[i] == es[i + 1]);
        }
    }
    lemma_no_catch_all(t);
}

/// An operation's line in a listing (without colour) is its name, two
/// spaces in, followed by the arrow of its own direction: ` (<->)` for a
/// bidirectional operation, ` (<-)` for a reverse one, nothing for a
/// one-way one.
pub proof fn law_operation_line(rules: Seq<Rule>, op: ServiceOp)
    ensures
        op.direction == Direction::Bidirectional ==> print_operation(rules, false, op).len() >= op.name@.len() + 9 && print_operation(rules, false, op).take(op.name@.len() as int + 9)
            == seq![' ', ' '] + op.name@ + seq![' ', '(', '<', '-', '>', ')', '\n'],
        op.direction == Direction::Reverse ==> print_operation(rules, false, op).len() >= op.name@.len() + 8 && print_operation(rules, false, op).take(op.name@.len() as int + 8)
            == seq![' ', ' '] + op.name@ + seq![' ', '(', '<', '-', ')', '\n'],
        op.direction == Direction::Unidirectional ==> print_operation(rules, false, op).len() >= op.name@.len() + 3 && print_operation(rules, false, op).take(op.name@.len() as int + 3)
            == seq![' ', ' '] + op.name@ + seq!['\n'],
{
    reveal(print_operation);
    let p = print_operation(rules, false, op);
    let n = op.name@;
    let label = crate::list::op_label(op);
    let first = crate::list::styled_line(false, seq![' ', ' '], crate::color::Style::Cyan, label);
    assert(crate::color::styled(false, crate::color::Style::Cyan, label) == label);
    assert(first == seq![' ', ' '] + label + seq!['\n']);
    let six = seq![' ', ' ', ' ', ' ', ' ', ' '];
    let four = seq![' ', ' ', ' ', ' '];
    let a = if crate::list::is_push_only(op) {
        Seq::<char>::empty()
    } else {
        crate::list::styled_line(false, four, crate::color::Style::Bold, crate::list::request_word())
            + crate::list::describe(rules, false, six, op.input_type)
    };
    let b = crate::list::styled_line(false, four, crate::color::Style::Bold, crate::list::response_word());
    let d = crate::list::describe(rules, false, six, op.output_type);
    assert(p == first + a + b + d);
    assert(first + a + b + d =~= first + (a + b + d));
    assert((first + (a + b + d)).take(first.len() as int) =~= first);
    match op.direction {
        Direction::Bidirectional => {
            let line = seq![' ', ' '] + n + seq![' ', '(', '<', '-', '>', ')', '\n'];
            assert(p.take(n.len() as int + 9) =~= line);
        },
        Direction::Reverse => {
            let line = seq![' ', ' '] + n + seq![' ', '(', '<', '-', ')', '\n'];
            assert(p.take(n.len() as int + 8) =~= line);
        },
        Direction::Unidirectional => {
            let line = seq![' ', ' '] + n + seq!['\n'];
            assert(p.take(n.len() as int + 3) =~= line);
        },
    }
}

/// Operations that differ only in direction are listed on different lines.
pub proof fn law_directions_told_apart(rules: Seq<Rule>, a: ServiceOp, b: ServiceOp)
    requires
        a.name@ == b.name@,
        a.direction != b.direction,
    ensures
        print_operation(rules, false, a) != print_operation(rules, false, b),
{
    law_operation_line(rules, a);
    law_operation_line(rules, b);
    let n = a.name@;
    let pa = print_operation(rules, false, a);
    let pb = print_operation(rules, false, b);
    if pa == pb {

        match (a.direction, b.direction) {
            (Direction::Unidirectional, _) => {
                assert(pa.take(n.len() as int + 3)[n.len() as int + 2] == '\n');
                assert(pb.take(n.len() as int + 3) =~= pb.take(n.len() as int + 8).take(n.len() as int + 3));
                assert(pb.take(n.len() as int + 3)[n.len() as int + 2] == ' ');
            },
            (_, Direction::Unidirectional) => {
                assert(pb.take(n.len() as int + 3)[n.len() as int + 2] == '\n');
                assert(pa.take(n.len() as int + 3) =~= pa.take(n.len() as int + 8).take(n.len() as int + 3));
                assert(pa.take(n.len() as int + 3)[n.len() as int + 2] == ' ');
            },
            (Direction::Bidirectional, _) => {
                assert(pa.take(n.len() as int + 9)[n.len() as int + 6] == '>');
                assert(pb.take(n.len() as int + 8)[n.len() as int + 6] == ')');
            },
            _ => {
                assert(pb.take(n.len() as int + 9)[n.len() as int + 6] == '>');
                assert(pa.take(n.len() as int + 8)[n.len() as int + 6] == ')');
            },
        }
    }
}

/// A `bool` question reads the (trimmed) answers `true`, `t`, `yes`, `y` as
/// JSON true and `false`, `f`, `no`, `n` as JSON false.
pub proof fn law_bool_answers(ask: AskV, line: Seq<char>, as_json: Option<JsonV>, as_float: Option<JsonV>)
    requires
        ask.kind == AskKindV::Builtin(seq!['b', 'o', 'o', 'l']),
    ensures
        ({
            let w = trim(line);
            w == seq!['t', 'r', 'u', 'e'] || w == seq!['t'] || w == seq!['y', 'e', 's'] || w == seq!['y']
        }) ==> answer_json(ask, line, as_json, as_float) == Ok::<JsonV, crate::prompt::PromptErrorV>(JsonV::Bool(true)),
        ({
            let w = trim(line);
            w == seq!['f', 'a', 'l', 's', 'e'] || w == seq!['f'] || w == seq!['n', 'o'] || w == seq!['n']
        }) ==> answer_json(ask, line, as_json, as_float) == Ok::<JsonV, crate::prompt::PromptErrorV>(JsonV::Bool(false)),
{
    let name = seq!['b', 'o', 'o', 'l'];
    assert(name != seq!['i', 'n', 't']);
    assert(name[0] != seq!['u', 'i', 'n', 't'][0]);
    assert(name != seq!['f', 'l', 'o', 'a', 't']);
    let w = trim(line);
    if w == seq!['f', 'a', 'l', 's', 'e'] || w == seq!['f'] || w == seq!['n', 'o'] || w == seq!['n'] {
        assert(w[0] != 't' && w[0] != 'y');
        assert(seq!['t', 'r', 'u', 'e'][0] == 't');
        assert(seq!['t'][0] == 't');
        assert(seq!['y', 'e', 's'][0] == 'y');
        assert(seq!['y'][0] == 'y');
    }
}

proof fn lemma_literal_list(items: Seq<Literal>)
    ensures
        crate::prompt::literal_list_json(items).len() == items.len(),
        forall|i: int| 0 <= i < items.len() ==> #[trigger] crate::prompt::literal_list_json(items)[i] == literal_json(items[i]),
    decreases items.len(),
{
    if items.len() > 0 {
        lemma_literal_list(items.drop_last());
        assert forall|i: int| 0 <= i < items.len() implies #[trigger] crate::prompt::literal_list_json(items)[i] == literal_json(items[i]) by {
            if i < items.len() - 1 {
                assert(items.drop_last()[i] == items[i]);
            }
        }
    }
}

/// The JSON a `.default` literal fills in stands for the literal: encoded
/// against the literal's own builtin type it gives the literal's value
/// (an integer that integer, a boolean that boolean, a text that text,
/// bytes those bytes, a finite float that float), null stays null, and an
/// array of literals becomes the array of what each element becomes, in
/// order.
pub proof fn law_default_stands_for_literal(lit: Literal)
    ensures
        match lit {
            Literal::Integer(n) => encode_builtin(literal_json(lit), seq!['i', 'n', 't'])
                == Ok::<CborV, EncodeErrorV>(CborV::Integer(n as int)),
            Literal::Bool(b) => encode_builtin(literal_json(lit), seq!['b', 'o', 'o', 'l'])
                == Ok::<CborV, EncodeErrorV>(CborV::Bool(b)),
            Literal::Text(s) => encode_builtin(literal_json(lit), seq!['t', 'e', 'x', 't'])
                == Ok::<CborV, EncodeErrorV>(CborV::Text(s@)),
            Literal::Bytes(b) => encode_builtin(literal_json(lit), seq!['b', 'y', 't', 'e', 's'])
                == Ok::<CborV, EncodeErrorV>(CborV::Bytes(b@)),
            Literal::Float(x) => is_finite(x.bits) ==> encode_builtin(
                literal_json(lit),
                seq!['f', 'l', 'o', 'a', 't'],
            ) == Ok::<CborV, EncodeErrorV>(CborV::Float(float_view(x))),
            Literal::Null => literal_json(lit) == JsonV::Null,
            Literal::Array(items) => literal_json(lit) matches JsonV::Array(js) && js.len() == items@.len() && forall|
                i: int,
            | 0 <= i < items@.len() ==> #[trigger] js[i] == literal_json(items@[i]),
        },
{
    match lit {
        Literal::Bytes(b) => {
            crate::payload::law_bytes_shown_read_back(b@);
            assert(seq!['b', 'y', 't', 'e', 's'] != seq!['i', 'n', 't']);
            assert(seq!['b', 'y', 't', 'e', 's'][0] != seq!['u', 'i', 'n', 't'][0]);
            assert(seq!['b', 'y', 't', 'e', 's'][0] != seq!['f', 'l', 'o', 'a', 't'][0]);
            assert(seq!['b', 'y', 't', 'e', 's'][0] != seq!['t', 'e', 'x', 't'][0]);
            assert(seq!['b', 'y', 't', 'e', 's'] != seq!['b', 'o', 'o', 'l']);
        },
        Literal::Bool(_) => {
            assert(seq!['b', 'o', 'o', 'l'] != seq!['i', 'n', 't']);
            assert(seq!['b', 'o', 'o', 'l'][0] != seq!['u', 'i', 'n', 't'][0]);
            assert(seq!['b', 'o', 'o', 'l'] != seq!['f', 'l', 'o', 'a', 't']);
            assert(seq!['b', 'o', 'o', 'l'][0] != seq!['t', 'e', 'x', 't'][0]);
        },
        Literal::Text(_) => {
            assert(seq!['t', 'e', 'x', 't'] != seq!['i', 'n', 't']);
            assert(seq!['t', 'e', 'x', 't'][0] != seq!['u', 'i', 'n', 't'][0]);
            assert(seq!['t', 'e', 'x', 't'] != seq!['f', 'l', 'o', 'a', 't']);
        },
        Literal::Float(_) => {
            assert(seq!['f', 'l', 'o', 'a', 't'] != seq!['i', 'n', 't']);
            assert(seq!['f', 'l', 'o', 'a', 't'] != seq!['u', 'i', 'n', 't']);
        },
        Literal::Array(items) => lemma_literal_list(items@),
        Literal::Integer(n) => {
            if n >= 0 {
                assert(((n as u64) as i64) == n);
            }
        },
        _ => {},
    }
}

// ----- Pretty JSON is compact JSON with layout added -----

/// What a character does to the reading of JSON text: outside a string
/// (0), inside one (1), or just after a backslash inside one (2).
pub open spec fn text_state_after(c: char, st: nat) -> nat {
    if st == 0 {
        if c == '"' {
            1
        } else {
            0
        }
    } else if st == 1 {
        if c == '\\' {
            2
        } else if c == '"' {
            0
        } else {
            1
        }
    } else {
        1
    }
}

/// JSON text with its layout taken out: the spaces and line breaks that
/// stand outside strings removed, every other character kept.
pub open spec fn without_layout(s: Seq<char>, st: nat) -> Seq<char>
    decreases s.len(),
{
    if s.len() == 0 {
        Seq::empty()
    } else {
        (if st == 0 && (s[0] == ' ' || s[0] == '\n') {
            Seq::empty()
        } else {
            seq![s[0]]
        }) + without_layout(s.drop_first(), text_state_after(s[0], st))
    }
}

/// The reading state after `s`, starting in `st`.
pub open spec fn state_after(s: Seq<char>, st: nat) -> nat
    decreases s.len(),
{
    if s.len() == 0 {
        st
    } else {
        state_after(s.drop_first(), text_state_after(s[0], st))
    }
}

/// Text with no space, line break, quote or backslash.
pub open spec fn is_bare(s: Seq<char>) -> bool {
    forall|i: int| 0 <= i < s.len() ==> #[trigger] s[i] != ' ' && s[i] != '\n' && s[i] != '"' && s[i] != '\\'
}

/// Every float in the value is written (its JSON text) without spaces,
/// line breaks, quotes or backslashes, as a number is.
pub open spec fn floats_bare(v: JsonV) -> bool
    decreases v,
{
    match v {
        JsonV::Number(n) => match n.kind {
            NumberKindV::Float(x) => is_bare(x.json),
            _ => true,
        },
        JsonV::Array(items) => floats_bare_list(items),
        JsonV::Object(ms) => floats_bare_members(ms),
        _ => true,
    }
}

pub open spec fn floats_bare_list(items: Seq<JsonV>) -> bool
    decreases items,
{
    if items.len() == 0 {
        true
    } else {
        floats_bare_list(items.drop_last()) && floats_bare(items.last())
    }
}

pub open spec fn floats_bare_members(ms: Seq<(Seq<char>, JsonV)>) -> bool
    decreases ms,
{
    if ms.len() == 0 {
        true
    } else {
        floats_bare_members(ms.drop_last()) && floats_bare(ms.last().1)
    }
}

proof fn lemma_layout_concat(a: Seq<char>, b: Seq<char>, st: nat)
    ensures
        without_layout(a + b, st) == without_layout(a, st) + without_layout(b, state_after(a, st)),
        state_after(a + b, st) == state_after(b, state_after(a, st)),
    decreases a.len(),
{
    if a.len() == 0 {
        assert(a + b =~= b);
    } else {
        assert((a + b)[0] == a[0]);
        assert((a + b).drop_first() =~= a.drop_first() + b);
        lemma_layout_concat(a.drop_first(), b, text_state_after(a[0], st));
    }
}

proof fn lemma_bare(s: Seq<char>)
    requires
        is_bare(s),
    ensures
        without_layout(s, 0) == s,
        state_after(s, 0) == 0,
    decreases s.len(),
{
    if s.len() > 0 {
        assert(s[0] != ' ' && s[0] != '\n' && s[0] != '"' && s[0] != '\\');
        assert forall|i: int| 0 <= i < s.drop_first().len() implies #[trigger] s.drop_first()[i] != ' '
            && s.drop_first()[i] != '\n' && s.drop_first()[i] != '"' && s.drop_first()[i] != '\\' by {
            assert(s.drop_first()[i] == s[i + 1]);
        }
        lemma_bare(s.drop_first());
        assert(s =~= seq![s[0]] + s.drop_first());
    }
}

/// Inside a string, characters other than a quote or a backslash are kept
/// and leave the reading inside the string.
proof fn lemma_in_string(s: Seq<char>)
    requires
        forall|i: int| 0 <= i < s.len() ==> #[trigger] s[i] != '"' && s[i] != '\\',
    ensures
        without_layout(s, 1) == s,
        state_after(s, 1) == 1,
    decreases s.len(),
{
    if s.len() > 0 {
        assert(s[0] != '"' && s[0] != '\\');
        assert forall|i: int| 0 <= i < s.drop_first().len() implies #[trigger] s.drop_first()[i] != '"'
            && s.drop_first()[i] != '\\' by {
            assert(s.drop_first()[i] == s[i + 1]);
        }
        lemma_in_string(s.drop_first());
        assert(s =~= seq![s[0]] + s.drop_first());
    }
}

proof fn lemma_escape_pair(x: char)
    ensures
        without_layout(seq!['\\', x], 1) == seq!['\\', x],
        state_after(seq!['\\', x], 1) == 1,
{
    let s = seq!['\\', x];
    let t = seq![x];
    let e = Seq::<char>::empty();
    assert(s.drop_first() =~= t);
    assert(t.drop_first() =~= e);
    assert(without_layout(e, 1) == e);
    assert(state_after(e, 1) == 1);
    assert(without_layout(t, 2) == seq![x] + without_layout(e, 1));
    assert(state_after(t, 2) == state_after(e, 1));
    assert(text_state_after('\\', 1) == 2);
    assert(without_layout(s, 1) == seq!['\\'] + without_layout(t, 2));
    assert(state_after(s, 1) == state_after(t, 2));
    assert(s =~= seq!['\\'] + seq![x]);
}

proof fn lemma_hex_digit(n: nat)
    requires
        n < 16,
    ensures
        hex_digit(n) != '"',
        hex_digit(n) != '\\',
{
    if n < 10 {
        assert((48 + n) as char == hex_digit(n));
        assert(((48 + n) as char) as int == 48 + n);
    } else {
        assert(((87 + n) as char) as int == 87 + n);
    }
}

proof fn lemma_escape_char(c: char)
    ensures
        without_layout(escape_char(c), 1) == escape_char(c),
        state_after(escape_char(c), 1) == 1,
{
    let e = escape_char(c);
    if c == '"' || c == '\\' || c == '\x08' || c == '\t' || c == '\n' || c == '\x0c' || c == '\r' {
        lemma_escape_pair(e[1]);
        assert(e =~= seq!['\\', e[1]]);
    } else if (c as nat) < 0x20 {
        let h = seq!['0', '0', hex_digit((c as nat) / 16), hex_digit((c as nat) % 16)];
        lemma_hex_digit((c as nat) / 16);
        lemma_hex_digit((c as nat) % 16);
        lemma_in_string(h);
        lemma_escape_pair('u');
        assert(e =~= seq!['\\', 'u'] + h);
        lemma_layout_concat(seq!['\\', 'u'], h, 1);
    } else {
        lemma_in_string(seq![c]);
    }
}

proof fn lemma_escaped(s: Seq<char>)
    ensures
        without_layout(escaped(s), 1) == escaped(s),
        state_after(escaped(s), 1) == 1,
    decreases s.len(),
{
    if s.len() > 0 {
        lemma_escaped(s.drop_last());
        lemma_escape_char(s.last());
        lemma_layout_concat(escaped(s.drop_last()), escape_char(s.last()), 1);
    }
}

proof fn lemma_quoted(s: Seq<char>)
    ensures
        without_layout(quoted(s), 0) == quoted(s),
        state_after(quoted(s), 0) == 0,
{
    let q = seq!['"'];
    let e = Seq::<char>::empty();
    assert(q.drop_first() =~= e);
    assert(without_layout(q, 0) == seq!['"'] + without_layout(e, 1));
    assert(without_layout(q, 1) == seq!['"'] + without_layout(e, 0));
    assert(q =~= seq!['"'] + e);
    assert(state_after(q, 0) == state_after(e, 1));
    assert(state_after(q, 1) == state_after(e, 0));
    lemma_escaped(s);
    lemma_layout_concat(q, escaped(s), 0);
    lemma_layout_concat(q + escaped(s), q, 0);
    assert(q.drop_first() =~= Seq::<char>::empty());
}

proof fn lemma_decimal_bare(n: nat)
    ensures
        is_bare(decimal(n)),
    decreases n,
{
    if n >= 10 {
        lemma_decimal_bare(n / 10);
    }
    assert(((48 + n % 10) as char) as int == 48 + n % 10);
    assert(digit_char(n % 10) as int == 48 + n % 10);
    if n < 10 {
        assert(((48 + n) as char) as int == 48 + n);
    }
}

proof fn lemma_number_bare(k: NumberKindV)
    requires
        k matches NumberKindV::Float(x) ==> is_bare(x.json),
    ensures
        is_bare(number_text(k)),
{
    match k {
        NumberKindV::PosInt(u) => lemma_decimal_bare(u as nat),
        NumberKindV::NegInt(i) => {
            if i < 0 {
                lemma_decimal_bare((-i) as nat);
                let d = decimal((-i) as nat);
                assert forall|j: int| 0 <= j < (seq!['-'] + d).len() implies #[trigger] (seq!['-'] + d)[j] != ' '
                    && (seq!['-'] + d)[j] != '\n' && (seq!['-'] + d)[j] != '"' && (seq!['-'] + d)[j] != '\\' by {
                    if j > 0 {
                        assert((seq!['-'] + d)[j] == d[j - 1]);
                    }
                }
            } else {
                lemma_decimal_bare(i as nat);
            }
        },
        NumberKindV::Float(_) => {},
    }
}

proof fn lemma_word_bare(s: Seq<char>)
    requires
        forall|i: int| 0 <= i < s.len() ==> 'a' <= #[trigger] s[i] <= 'z',
    ensures
        is_bare(s),
{
}

/// Compact JSON text has no layout to take out.
proof fn lemma_compact(v: JsonV)
    requires
        floats_bare(v),
    ensures
        without_layout(json_text(v), 0) == json_text(v),
        state_after(json_text(v), 0) == 0,
    decreases v,
{
    match v {
        JsonV::Null => {
            lemma_word_bare(seq!['n', 'u', 'l', 'l']);
            lemma_bare(seq!['n', 'u', 'l', 'l']);
        },
        JsonV::Bool(b) => {
            lemma_word_bare(seq!['t', 'r', 'u', 'e']);
            lemma_bare(seq!['t', 'r', 'u', 'e']);
            lemma_word_bare(seq!['f', 'a', 'l', 's', 'e']);
            lemma_bare(seq!['f', 'a', 'l', 's', 'e']);
        },
        JsonV::Number(n) => {
            lemma_number_bare(n.kind);
            lemma_bare(number_text(n.kind));
        },
        JsonV::Str(s) => lemma_quoted(s),
        JsonV::Array(items) => {
            lemma_compact_items(items);
            let o = seq!['['];
            let c = seq![']'];
            lemma_bare(o);
            lemma_bare(c);
            lemma_layout_concat(o, items_text(items), 0);
            lemma_layout_concat(o + items_text(items), c, 0);
        },
        JsonV::Object(ms) => {
            lemma_compact_members(ms);
            let o = seq!['{'];
            let c = seq!['}'];
            lemma_bare(o);
            lemma_bare(c);
            lemma_layout_concat(o, members_text(ms), 0);
            lemma_layout_concat(o + members_text(ms), c, 0);
        },
    }
}

proof fn lemma_compact_items(items: Seq<JsonV>)
    requires
        floats_bare_list(items),
    ensures
        without_layout(items_text(items), 0) == items_text(items),
        state_after(items_text(items), 0) == 0,
    decreases items,
{
    if items.len() == 1 {
        assert(items[0] == items.last());
        lemma_compact(items.last());
    } else if items.len() > 1 {
        lemma_compact_items(items.drop_last());
        lemma_compact(items.last());
        let a = items_text(items.drop_last());
        lemma_bare(seq![',']);
        lemma_layout_concat(a, seq![','], 0);
        lemma_layout_concat(a + seq![','], json_text(items.last()), 0);
    }
}

proof fn lemma_member_compact(k: Seq<char>, v: JsonV)
    requires
        without_layout(json_text(v), 0) == json_text(v),
        state_after(json_text(v), 0) == 0,
    ensures
        without_layout(quoted(k) + seq![':'] + json_text(v), 0) == quoted(k) + seq![':'] + json_text(v),
        state_after(quoted(k) + seq![':'] + json_text(v), 0) == 0,
{
    lemma_quoted(k);
    lemma_bare(seq![':']);
    lemma_layout_concat(quoted(k), seq![':'], 0);
    lemma_layout_concat(quoted(k) + seq![':'], json_text(v), 0);
}

proof fn lemma_compact_members(ms: Seq<(Seq<char>, JsonV)>)
    requires
        floats_bare_members(ms),
    ensures
        without_layout(members_text(ms), 0) == members_text(ms),
        state_after(members_text(ms), 0) == 0,
    decreases ms,
{
    if ms.len() == 1 {
        assert(ms[0] == ms.last());
        lemma_compact(ms.last().1);
        lemma_member_compact(ms[0].0, ms[0].1);
    } else if ms.len() > 1 {
        lemma_compact_members(ms.drop_last());
        lemma_compact(ms.last().1);
        lemma_member_compact(ms.last().0, ms.last().1);
        let a = members_text(ms.drop_last());
        let m = quoted(ms.last().0) + seq![':'] + json_text(ms.last().1);
        lemma_bare(seq![',']);
        lemma_layout_concat(a, seq![','], 0);
        lemma_layout_concat(a + seq![','], m, 0);
        assert(members_text(ms) =~= a + seq![','] + m);
    }
}

/// An indentation: spaces only.
pub open spec fn is_indent(ind: Seq<char>) -> bool {
    forall|i: int| 0 <= i < ind.len() ==> #[trigger] ind[i] == ' '
}

proof fn lemma_layout_only(s: Seq<char>)
    requires
        forall|i: int| 0 <= i < s.len() ==> #[trigger] s[i] == ' ' || s[i] == '\n',
    ensures
        without_layout(s, 0) == Seq::<char>::empty(),
        state_after(s, 0) == 0,
    decreases s.len(),
{
    if s.len() > 0 {
        assert(s[0] == ' ' || s[0] == '\n');
        assert forall|i: int| 0 <= i < s.drop_first().len() implies #[trigger] s.drop_first()[i] == ' '
            || s.drop_first()[i] == '\n' by {
            assert(s.drop_first()[i] == s[i + 1]);
        }
        lemma_layout_only(s.drop_first());
    }
}

/// A line break followed by an indentation, with `sep` (nothing or a comma)
/// before it: only the comma is left.
proof fn lemma_break(sep: Seq<char>, ind: Seq<char>)
    requires
        sep == Seq::<char>::empty() || sep == seq![','],
        is_indent(ind),
    ensures
        without_layout(sep + seq!['\n'] + ind, 0) == sep,
        state_after(sep + seq!['\n'] + ind, 0) == 0,
{
    let l = seq!['\n'] + ind;
    assert forall|i: int| 0 <= i < l.len() implies #[trigger] l[i] == ' ' || l[i] == '\n' by {
        if i > 0 {
            assert(l[i] == ind[i - 1]);
        }
    }
    lemma_layout_only(l);
    lemma_bare(sep);
    lemma_layout_concat(sep, l, 0);
    assert(sep + seq!['\n'] + ind =~= sep + l);
}

proof fn lemma_pretty_items(items: Seq<JsonV>, ind: Seq<char>)
    requires
        items.len() > 0,
        floats_bare_list(items),
        is_indent(ind),
    ensures
        without_layout(pretty_items(items, ind), 0) == items_text(items),
        state_after(pretty_items(items, ind), 0) == 0,
    decreases items,
{
    let sep = if items.len() == 1 {
        Seq::<char>::empty()
    } else {
        seq![',']
    };
    let head = pretty_items(items.drop_last(), ind);
    law_pretty_is_compact_with_layout(items.last(), ind);
    lemma_break(sep, ind);
    if items.len() == 1 {
        assert(head == Seq::<char>::empty());
        assert(pretty_items(items, ind) =~= (sep + seq!['\n'] + ind) + pretty_text(items.last(), ind));
        lemma_layout_concat(sep + seq!['\n'] + ind, pretty_text(items.last(), ind), 0);
        assert(items[0] == items.last());
    } else {
        lemma_pretty_items(items.drop_last(), ind);
        assert(pretty_items(items, ind) =~= head + (sep + seq!['\n'] + ind) + pretty_text(items.last(), ind));
        lemma_layout_concat(head, sep + seq!['\n'] + ind, 0);
        lemma_layout_concat(head + (sep + seq!['\n'] + ind), pretty_text(items.last(), ind), 0);
    }
}

proof fn lemma_pretty_members(ms: Seq<(Seq<char>, JsonV)>, ind: Seq<char>)
    requires
        ms.len() > 0,
        floats_bare_members(ms),
        is_indent(ind),
    ensures
        without_layout(pretty_members(ms, ind), 0) == members_text(ms),
        state_after(pretty_members(ms, ind), 0) == 0,
    decreases ms,
{
    let sep = if ms.len() == 1 {
        Seq::<char>::empty()
    } else {
        seq![',']
    };
    let head = pretty_members(ms.drop_last(), ind);
    let (k, v) = ms.last();
    law_pretty_is_compact_with_layout(v, ind);
    lemma_break(sep, ind);
    lemma_quoted(k);
    let colon = seq![':', ' '];
    assert(colon =~= seq![':'] + seq![' ']);
    lemma_bare(seq![':']);
    lemma_layout_only(seq![' ']);
    lemma_layout_concat(seq![':'], seq![' '], 0);
    let m = quoted(k) + colon + pretty_text(v, ind);
    lemma_layout_concat(quoted(k), colon, 0);
    lemma_layout_concat(quoted(k) + colon, pretty_text(v, ind), 0);
    assert(without_layout(m, 0) == quoted(k) + seq![':'] + json_text(v));
    let br = sep + seq!['\n'] + ind;
    if ms.len() == 1 {
        assert(pretty_members(ms, ind) =~= br + m);
        lemma_layout_concat(br, m, 0);
        assert(ms[0] == ms.last());
    } else {
        lemma_pretty_members(ms.drop_last(), ind);
        assert(pretty_members(ms, ind) =~= head + br + m);
        lemma_layout_concat(head, br, 0);
        lemma_layout_concat(head + br, m, 0);
        assert(members_text(ms) =~= members_text(ms.drop_last()) + seq![','] + (quoted(k) + seq![':'] + json_text(v)));
    }
}

/// The pretty JSON text of a value is its compact JSON text with only
/// layout added: taking out the spaces and line breaks that stand outside
/// strings gives the compact text back (so the elements and members are
/// the same, in the same order, each after the first behind exactly one
/// comma), and the text ends outside any string.
pub proof fn law_pretty_is_compact_with_layout(v: JsonV, ind: Seq<char>)
    requires
        floats_bare(v),
        is_indent(ind),
    ensures
        without_layout(pretty_text(v, ind), 0) == json_text(v),
        state_after(pretty_text(v, ind), 0) == 0,
    decreases v,
{
    let d = deeper(ind);
    assert(is_indent(d)) by {
        assert forall|i: int| 0 <= i < d.len() implies #[trigger] d[i] == ' ' by {
            if i < ind.len() {
                assert(d[i] == ind[i]);
            }
        }
    }
    let o = seq!['['];
    match v {
        JsonV::Array(items) => {
            if items.len() == 0 {
                lemma_bare(seq!['[', ']']);
            } else {
                lemma_pretty_items(items, d);
                let close = seq!['\n'] + ind + seq![']'];
                lemma_break(Seq::<char>::empty(), ind);
                lemma_bare(seq![']']);
                assert(Seq::<char>::empty() + seq!['\n'] + ind =~= seq!['\n'] + ind);
                lemma_layout_concat(seq!['\n'] + ind, seq![']'], 0);
                lemma_bare(o);
                let p = pretty_items(items, d);
                assert(pretty_text(v, ind) =~= o + p + close);
                lemma_layout_concat(o, p, 0);
                lemma_layout_concat(o + p, close, 0);
            }
        },
        JsonV::Object(ms) => {
            if ms.len() == 0 {
                lemma_bare(seq!['{', '}']);
            } else {
                lemma_pretty_members(ms, d);
                let close = seq!['\n'] + ind + seq!['}'];
                lemma_break(Seq::<char>::empty(), ind);
                lemma_bare(seq!['}']);
                assert(Seq::<char>::empty() + seq!['\n'] + ind =~= seq!['\n'] + ind);
                lemma_layout_concat(seq!['\n'] + ind, seq!['}'], 0);
                let oo = seq!['{'];
                lemma_bare(oo);
                let p = pretty_members(ms, d);
                assert(pretty_text(v, ind) =~= oo + p + close);
                lemma_layout_concat(oo, p, 0);
                lemma_layout_concat(oo + p, close, 0);
            }
        },
        _ => lemma_compact(v),
    }
}

} // verus!
