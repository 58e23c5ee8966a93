//! Filling in an operation's request from the user: which fields to ask
//! for (walking the resolved type and the data already given), how an
//! answer typed at the prompt becomes a JSON value, and how the answers are
//! put together with the given data into the request.
use vstd::prelude::*;
use crate::csil::{File, Rule, TypeExpr, GroupEntry, GroupKey, Literal, Occurrence, ControlOp, FloatNum, str_eq};
use crate::list::{resolve_type, entry_name, render_type};
use crate::payload::{
    MAX_STEPS, member_get, member_get_exec, object_insert, insert_member, is_catch_all, is_optional, is_finite, clone_float,
};
use crate::text::{hex_string, parse_i128, trim, str_debug, debug_str, push_char};
use crate::value::{
    Json, JsonV, JsonNumber, NumberKind, NumberKindV, NumberV, float_view, FloatV, json_list_view,
    json_members_view, clone_json,
};

verus! {

// ----- Defaults -----

/// A literal as JSON: integers as numbers, finite floats as numbers (others
/// as null), byte strings as `0x` and lowercase hex.
pub open spec fn literal_json(lit: Literal) -> JsonV
    decreases lit,
{
    match lit {
        Literal::Integer(n) => JsonV::Number(
            NumberV {
                kind: if n < 0 {
                    NumberKindV::NegInt(n)
                } else {
                    NumberKindV::PosInt(n as u64)
                },
                int_as_float: None,
            },
        ),
        Literal::Float(f) => if is_finite(f.bits) {
            JsonV::Number(NumberV { kind: NumberKindV::Float(float_view(f)), int_as_float: None })
        } else {
            JsonV::Null
        },
        Literal::Text(s) => JsonV::Str(s@),
        Literal::Bytes(b) => JsonV::Str(seq!['0', 'x'] + hex_string(b@)),
        Literal::Bool(b) => JsonV::Bool(b),
        Literal::Null => JsonV::Null,
        Literal::Array(items) => JsonV::Array(literal_list_json(items@)),
    }
}

pub open spec fn literal_list_json(items: Seq<Literal>) -> Seq<JsonV>
    decreases items,
{
    if items.len() == 0 {
        Seq::empty()
    } else {
        literal_list_json(items.drop_last()).push(literal_json(items.last()))
    }
}

/// The index of the first `.default` among constraints, at or after `i`.
pub open spec fn first_default(cs: Seq<ControlOp>, i: int) -> Option<int>
    decreases cs.len() - i,
{
    if i < 0 || i >= cs.len() {
        None
    } else if cs[i] is Default {
        Some(i)
    } else {
        first_default(cs, i + 1)
    }
}

/// The `.default` value that `t`, once resolved, carries, as JSON.
pub open spec fn default_of(rules: Seq<Rule>, t: TypeExpr) -> Option<JsonV> {
    match resolve_type(rules, t) {
        TypeExpr::Constrained { constraints, .. } => match first_default(constraints@, 0) {
            Some(i) => Some(literal_json(constraints@[i]->Default_0)),
            None => None,
        },
        _ => None,
    }
}

// ----- What to ask -----

/// What one question asks for: a value of a builtin type, or a whole value
/// as JSON (for shapes with no fixed fields), with the type as listed.
#[derive(Debug)]
pub enum AskKind {
    Builtin(String),
    Raw(String),
}

/// One question: where in the request it goes, and what it asks for.
#[derive(Debug)]
pub struct Ask {
    pub path: String,
    pub kind: AskKind,
}

pub enum AskKindV {
    Builtin(Seq<char>),
    Raw(Seq<char>),
}

pub struct AskV {
    pub path: Seq<char>,
    pub kind: AskKindV,
}

pub open spec fn ask_view(a: Ask) -> AskV {
    AskV {
        path: a.path@,
        kind: match a.kind {
            AskKind::Builtin(n) => AskKindV::Builtin(n@),
            AskKind::Raw(s) => AskKindV::Raw(s@),
        },
    }
}

impl View for Ask {
    type V = AskV;

    open spec fn view(&self) -> AskV {
        ask_view(*self)
    }
}

pub open spec fn asks_view(v: Seq<Ask>) -> Seq<AskV> {
    v.map_values(|a: Ask| a@)
}

/// The path of a field `name` inside `path` (dot-separated).
pub open spec fn child_path(path: Seq<char>, name: Seq<char>) -> Seq<char> {
    if path.len() == 0 {
        name
    } else {
        path + seq!['.'] + name
    }
}

pub open spec fn is_nil_name(name: Seq<char>) -> bool {
    name == seq!['n', 'i', 'l'] || name == seq!['n', 'u', 'l', 'l']
}

/// The members of an object, if the value is one.
pub open spec fn object_members(j: Option<JsonV>) -> Option<Seq<(Seq<char>, JsonV)>> {
    match j {
        Some(JsonV::Object(ms)) => Some(ms),
        _ => None,
    }
}

/// The value given for the field `name`, if any.
pub open spec fn given_field(obj: Option<Seq<(Seq<char>, JsonV)>>, name: Seq<char>) -> Option<JsonV> {
    match obj {
        Some(ms) => member_get(ms, name),
        None => None,
    }
}

/// Whether a group entry is asked about: not a catch-all, and given, or
/// with neither a default nor an optional occurrence.
pub open spec fn entry_asked(rules: Seq<Rule>, e: GroupEntry, obj: Option<Seq<(Seq<char>, JsonV)>>) -> bool {
    &&& !is_catch_all(e)
    &&& (given_field(obj, entry_name(e)) is Some || (default_of(rules, e.value_type) is None
        && !is_optional(e)))
}

/// The questions for a value of type `t` at `path`, given `existing`, in
/// the order they are asked; `None` when the type nests deeper than `fuel`.
pub open spec fn plan(rules: Seq<Rule>, t: TypeExpr, path: Seq<char>, existing: Option<JsonV>, fuel: nat) -> Option<Seq<AskV>>
    decreases fuel, 0nat, 0nat,
{
    if fuel == 0 {
        None
    } else {
        let r = resolve_type(rules, t);
        match r {
            TypeExpr::Builtin(name) => if existing is Some || is_nil_name(name@) {
                Some(Seq::empty())
            } else {
                Some(seq![AskV { path, kind: AskKindV::Builtin(name@) }])
            },
            TypeExpr::Group(g) => plan_fields(rules, g.entries@, path, object_members(existing), (fuel - 1) as nat),
            TypeExpr::Tuple(g) => plan_fields(rules, g.entries@, path, object_members(existing), (fuel - 1) as nat),
            _ => if existing is Some {
                Some(Seq::empty())
            } else {
                Some(seq![AskV { path, kind: AskKindV::Raw(render_type(r)) }])
            },
        }
    }
}

/// The questions for a group's entries, in order.
pub open spec fn plan_fields(rules: Seq<Rule>, es: Seq<GroupEntry>, path: Seq<char>, obj: Option<Seq<(Seq<char>, JsonV)>>, f: nat) -> Option<Seq<AskV>>
    decreases f, 1nat, es.len(),
{
    if es.len() == 0 {
        Some(Seq::empty())
    } else {
        match plan_fields(rules, es.drop_last(), path, obj, f) {
            None => None,
            Some(acc) => {
                let e = es.last();
                if !entry_asked(rules, e, obj) {
                    Some(acc)
                } else {
                    let name = entry_name(e);
                    match plan(rules, e.value_type, child_path(path, name), given_field(obj, name), f) {
                        None => None,
                        Some(more) => Some(acc + more),
                    }
                }
            },
        }
    }
}

// ----- Putting the answers in -----

/// The answer at `pos`, or null past the end.
pub open spec fn answer_at(answers: Seq<JsonV>, pos: nat) -> JsonV {
    if pos < answers.len() {
        answers[pos as int]
    } else {
        JsonV::Null
    }
}

/// The position after taking the answer at `pos` (it stays at the end).
pub open spec fn advance(pos: nat, len: nat) -> nat {
    if pos < len {
        pos + 1
    } else {
        pos
    }
}

/// The value of type `t`, from `existing` and the answers from `pos` on,
/// with the position of the first answer left over.
pub open spec fn fill(rules: Seq<Rule>, t: TypeExpr, existing: Option<JsonV>, answers: Seq<JsonV>, pos: nat, fuel: nat) -> (JsonV, nat)
    decreases fuel, 0nat, 0nat,
{
    if fuel == 0 {
        (JsonV::Null, pos)
    } else {
        let r = resolve_type(rules, t);
        match r {
            TypeExpr::Builtin(name) => match existing {
                Some(v) => (v, pos),
                None => if is_nil_name(name@) {
                    (JsonV::Null, pos)
                } else {
                    (answer_at(answers, pos), advance(pos, answers.len()))
                },
            },
            TypeExpr::Group(g) => fill_group(rules, g.entries@, existing, answers, pos, (fuel - 1) as nat),
            TypeExpr::Tuple(g) => fill_group(rules, g.entries@, existing, answers, pos, (fuel - 1) as nat),
            _ => match existing {
                Some(v) => (v, pos),
                None => (answer_at(answers, pos), advance(pos, answers.len())),
            },
        }
    }
}

/// The members a group's value starts from: those of the given object.
pub open spec fn base_members(obj: Option<Seq<(Seq<char>, JsonV)>>) -> Seq<(Seq<char>, JsonV)> {
    match obj {
        Some(ms) => ms,
        None => Seq::empty(),
    }
}

/// A group's value: the given object (or an empty one) with each entry
/// set, in order.
pub open spec fn fill_group(rules: Seq<Rule>, es: Seq<GroupEntry>, existing: Option<JsonV>, answers: Seq<JsonV>, pos: nat, f: nat) -> (JsonV, nat)
    decreases f, 2nat, 0nat,
{
    let obj = object_members(existing);
    let (ms, p) = fill_fields(rules, es, obj, base_members(obj), answers, pos, f);
    (JsonV::Object(ms), p)
}

pub open spec fn fill_fields(rules: Seq<Rule>, es: Seq<GroupEntry>, obj: Option<Seq<(Seq<char>, JsonV)>>, base: Seq<(Seq<char>, JsonV)>, answers: Seq<JsonV>, pos: nat, f: nat) -> (Seq<(Seq<char>, JsonV)>, nat)
    decreases f, 1nat, es.len(),
{
    if es.len() == 0 {
        (base, pos)
    } else {
        let (ms, p) = fill_fields(rules, es.drop_last(), obj, base, answers, pos, f);
        let e = es.last();
        let name = entry_name(e);
        if is_catch_all(e) {
            (ms, p)
        } else {
            match given_field(obj, name) {
                Some(v) => {
                    let (x, q) = fill(rules, e.value_type, Some(v), answers, p, f);
                    (object_insert(ms, name, x), q)
                },
                None => match default_of(rules, e.value_type) {
                    Some(d) => (object_insert(ms, name, d), p),
                    None => if is_optional(e) {
                        (ms, p)
                    } else {
                        let (x, q) = fill(rules, e.value_type, None, answers, p, f);
                        (object_insert(ms, name, x), q)
                    },
                },
            }
        }
    }
}

// ----- Reading an answer -----

/// Why an answer, or the walk, failed.
#[derive(Debug)]
pub enum PromptError {
    /// The answer (second) at a path (first) is not an `i64`.
    NotInteger(String, String),
    /// The answer is not a `u64`.
    NotNonNegative(String, String),
    /// The answer is not a number.
    NotNumber(String, String),
    /// The answer is not one of the words for true or false.
    NotBoolean(String, String),
    /// The builtin type (second) has no prompt.
    UnknownBuiltin(String, String),
    /// The answer (third) is not JSON; the type expected is second.
    NotJson(String, String, String),
    /// The type nests deeper than `MAX_STEPS`.
    TooDeep,
}

pub enum PromptErrorV {
    NotInteger(Seq<char>, Seq<char>),
    NotNonNegative(Seq<char>, Seq<char>),
    NotNumber(Seq<char>, Seq<char>),
    NotBoolean(Seq<char>, Seq<char>),
    UnknownBuiltin(Seq<char>, Seq<char>),
    NotJson(Seq<char>, Seq<char>, Seq<char>),
    TooDeep,
}

impl View for PromptError {
    type V = PromptErrorV;

    open spec fn view(&self) -> PromptErrorV {
        match *self {
            PromptError::NotInteger(p, l) => PromptErrorV::NotInteger(p@, l@),
            PromptError::NotNonNegative(p, l) => PromptErrorV::NotNonNegative(p@, l@),
            PromptError::NotNumber(p, l) => PromptErrorV::NotNumber(p@, l@),
            PromptError::NotBoolean(p, l) => PromptErrorV::NotBoolean(p@, l@),
            PromptError::UnknownBuiltin(p, n) => PromptErrorV::UnknownBuiltin(p@, n@),
            PromptError::NotJson(p, t, l) => PromptErrorV::NotJson(p@, t@, l@),
            PromptError::TooDeep => PromptErrorV::TooDeep,
        }
    }
}

/// `str::parse::<i64>`.
pub open spec fn parse_i64(s: Seq<char>) -> Option<i64> {
    match parse_i128(s, 10) {
        Some(v) => if i64::MIN <= v <= i64::MAX {
            Some(v as i64)
        } else {
            None
        },
        None => None,
    }
}

/// `str::parse::<u64>`: as `i64` but with no `-` sign and the range of `u64`.
pub open spec fn parse_u64(s: Seq<char>) -> Option<u64> {
    if s.len() > 0 && s[0] == '-' {
        None
    } else {
        match parse_i128(s, 10) {
            Some(v) => if 0 <= v <= u64::MAX {
                Some(v as u64)
            } else {
                None
            },
            None => None,
        }
    }
}

pub open spec fn true_word(s: Seq<char>) -> bool {
    s == seq!['t', 'r', 'u', 'e'] || s == seq!['t'] || s == seq!['y', 'e', 's'] || s == seq!['y']
}

pub open spec fn false_word(s: Seq<char>) -> bool {
    s == seq!['f', 'a', 'l', 's', 'e'] || s == seq!['f'] || s == seq!['n', 'o'] || s == seq!['n']
}

/// The JSON value that the answer `line` to `ask` gives. `as_json` is the
/// line read as JSON text, and `as_float` the line read as an `f64` made
/// into JSON, where they read.
/// The float that a number answer reads as, where it is one: what an
/// integer answer converts to (`as_f64`).
pub open spec fn carried_float(as_float: Option<JsonV>) -> Option<FloatV> {
    match as_float {
        Some(JsonV::Number(n)) => match n.kind {
            NumberKindV::Float(x) => Some(x),
            _ => None,
        },
        _ => None,
    }
}

pub open spec fn answer_json(ask: AskV, line: Seq<char>, as_json: Option<JsonV>, as_float: Option<JsonV>) -> Result<JsonV, PromptErrorV> {
    match ask.kind {
        AskKindV::Raw(shape) => match as_json {
            Some(j) => Ok(j),
            None => Err(PromptErrorV::NotJson(ask.path, shape, line)),
        },
        AskKindV::Builtin(name) => if name == seq!['i', 'n', 't'] {
            match parse_i64(line) {
                Some(n) => Ok(
                    JsonV::Number(
                        NumberV {
                            kind: if n < 0 {
                                NumberKindV::NegInt(n)
                            } else {
                                NumberKindV::PosInt(n as u64)
                            },
                            int_as_float: carried_float(as_float),
                        },
                    ),
                ),
                None => Err(PromptErrorV::NotInteger(ask.path, line)),
            }
        } else if name == seq!['u', 'i', 'n', 't'] {
            match parse_u64(line) {
                Some(n) => Ok(JsonV::Number(NumberV { kind: NumberKindV::PosInt(n), int_as_float: carried_float(as_float) })),
                None => Err(PromptErrorV::NotNonNegative(ask.path, line)),
            }
        } else if name == seq!['f', 'l', 'o', 'a', 't'] {
            match as_float {
                Some(j) => Ok(j),
                None => Err(PromptErrorV::NotNumber(ask.path, line)),
            }
        } else if name == seq!['b', 'o', 'o', 'l'] {
            if true_word(trim(line)) {
                Ok(JsonV::Bool(true))
            } else if false_word(trim(line)) {
                Ok(JsonV::Bool(false))
            } else {
                Err(PromptErrorV::NotBoolean(ask.path, line))
            }
        } else if name == seq!['t', 'e', 'x', 't'] || name == seq!['b', 'y', 't', 'e', 's'] {
            Ok(JsonV::Str(line))
        } else if name == seq!['a', 'n', 'y'] {
            match as_json {
                Some(j) => Ok(j),
                None => Ok(JsonV::Str(line)),
            }
        } else {
            Err(PromptErrorV::UnknownBuiltin(ask.path, name))
        },
    }
}

/// What the prompt for a question shows (before `": "`).
pub open spec fn prompt_text(ask: AskV) -> Seq<char> {
    match ask.kind {
        AskKindV::Builtin(name) => ask.path + seq![' ', '('] + name + seq![')'],
        AskKindV::Raw(_) => ask.path + " (JSON)"@,
    }
}

/// What a prompt error says.
pub open spec fn prompt_error_message(e: PromptErrorV) -> Seq<char> {
    match e {
        PromptErrorV::NotInteger(p, l) => p + ": expected an integer, got "@ + str_debug(l),
        PromptErrorV::NotNonNegative(p, l) => p + ": expected a non-negative integer, got "@ + str_debug(l),
        PromptErrorV::NotNumber(p, l) => p + ": expected a number, got "@ + str_debug(l),
        PromptErrorV::NotBoolean(p, l) => p + ": expected true/false, got "@ + str_debug(l),
        PromptErrorV::UnknownBuiltin(p, n) => p + ": unknown builtin type "@ + str_debug(n),
        PromptErrorV::NotJson(p, t, l) => p + ": expected JSON matching "@ + t + ", got "@ + str_debug(l),
        PromptErrorV::TooDeep => "type nesting too deep to prompt for"@,
    }
}

// ----- Executable pieces -----

/// A literal as JSON.
#[verifier::loop_isolation(false)]
pub fn literal_to_json(lit: &Literal) -> (r: Json)
    ensures
        r@ == literal_json(*lit),
    decreases lit,
{
    match lit {
        Literal::Integer(n) => {
            let kind = if *n < 0 {
                NumberKind::NegInt(*n)
            } else {
                NumberKind::PosInt(*n as u64)
            };
            Json::Number(JsonNumber { kind, int_as_float: None })
        },
        Literal::Float(f) => if (f.bits / 0x10_0000_0000_0000) % 2048 != 2047 {
            Json::Number(JsonNumber { kind: NumberKind::Float(clone_float(f)), int_as_float: None })
        } else {
            Json::Null
        },
        Literal::Text(s) => Json::Str(s.clone()),
        Literal::Bytes(b) => {
            let mut s = String::new();
            push_char(&mut s, '0');
            push_char(&mut s, 'x');
            let h = crate::text::hex(b.as_slice());
            s.append(h.as_str());
            assert(s@ =~= seq!['0', 'x'] + hex_string(b@));
            Json::Str(s)
        },
        Literal::Bool(b) => Json::Bool(*b),
        Literal::Null => Json::Null,
        Literal::Array(items) => {
            let mut out: Vec<Json> = Vec::new();
            let mut i: usize = 0;
            while i < items.len()
                invariant
                    i <= items.len(),
                    json_list_view(out@) == literal_list_json(items@.take(i as int)),
                decreases items.len() - i,
            {
                proof {
                    assert(decreases_to!(*lit => items@[i as int]));
                }
                let c = literal_to_json(&items[i]);
                let ghost cv = c@;
                let ghost before = out@;
                out.push(c);
                proof {
                    assert(out@.drop_last() =~= before);
                    assert(json_list_view(out@) == json_list_view(before).push(cv));
                    let t = items@.take(i + 1);
                    assert(t.drop_last() =~= items@.take(i as int));
                }
                i = i + 1;
            }
            assert(items@.take(items.len() as int) =~= items@);
            Json::Array(out)
        },
    }
}

/// The `.default` value that `t`, once resolved through `f`, carries, as
/// JSON, to stand in for an absent field without asking.
#[verifier::loop_isolation(false)]
pub fn default_value(t: &TypeExpr, f: &File) -> (r: Option<Json>)
    ensures
        match default_of(f.rules(), *t) {
            Some(d) => r matches Some(j) && j@ == d,
            None => r is None,
        },
{
    let resolved = crate::list::resolve(t, f);
    match resolved {
        TypeExpr::Constrained { constraints, .. } => {
            let mut i: usize = 0;
            while i < constraints.len()
                invariant
                    i <= constraints@.len(),
                    first_default(constraints@, 0) == first_default(constraints@, i as int),
                decreases constraints.len() - i,
            {
                match &constraints[i] {
                    ControlOp::Default(lit) => {
                        return Some(literal_to_json(lit));
                    },
                    _ => {},
                }
                i = i + 1;
            }
            None
        },
        _ => None,
    }
}

fn is_nil_name_exec(name: &str) -> (r: bool)
    ensures
        r == is_nil_name(name@),
{
    proof {
        reveal_strlit("nil");
        reveal_strlit("null");
        assert("nil"@ =~= seq!['n', 'i', 'l']);
        assert("null"@ =~= seq!['n', 'u', 'l', 'l']);
    }
    str_eq(name, "nil") || str_eq(name, "null")
}

fn child_path_exec(path: &str, name: &str) -> (r: String)
    ensures
        r@ == child_path(path@, name@),
{
    let mut s = String::new();
    if path.unicode_len() == 0 {
        s.append(name);
    } else {
        s.append(path);
        push_char(&mut s, '.');
        s.append(name);
    }
    assert(s@ =~= child_path(path@, name@));
    s
}

fn given_field_exec<'a>(obj: Option<&'a Vec<(String, Json)>>, name: &str) -> (r: Option<&'a Json>)
    ensures
        match given_field(
            match obj {
                Some(ms) => Some(json_members_view(ms@)),
                None => None,
            },
            name@,
        ) {
            Some(v) => r matches Some(x) && x@ == v,
            None => r is None,
        },
{
    match obj {
        Some(ms) => member_get_exec(ms, name),
        None => None,
    }
}

fn object_of_existing<'a>(existing: Option<&'a Json>) -> (r: Option<&'a Vec<(String, Json)>>)
    ensures
        object_members(
            match existing {
                Some(j) => Some(j@),
                None => None,
            },
        ) == match r {
            Some(ms) => Some(json_members_view(ms@)),
            None => None::<Seq<(Seq<char>, JsonV)>>,
        },
{
    match existing {
        Some(Json::Object(ms)) => Some(ms),
        _ => None,
    }
}

pub open spec fn opt_view(j: Option<&Json>) -> Option<JsonV> {
    match j {
        Some(x) => Some(x@),
        None => None,
    }
}

pub open spec fn owned_view(j: Option<Json>) -> Option<JsonV> {
    match j {
        Some(x) => Some(x@),
        None => None,
    }
}

pub open spec fn obj_view(o: Option<&Vec<(String, Json)>>) -> Option<Seq<(Seq<char>, JsonV)>> {
    match o {
        Some(ms) => Some(json_members_view(ms@)),
        None => None,
    }
}

fn entry_is_optional(e: &GroupEntry) -> (r: bool)
    ensures
        r == is_optional(*e),
{
    match e.occurrence {
        Some(Occurrence::Optional) => true,
        _ => false,
    }
}

fn entry_is_catch_all(e: &GroupEntry) -> (r: bool)
    ensures
        r == is_catch_all(*e),
{
    match &e.key {
        Some(GroupKey::Type(_)) => true,
        _ => false,
    }
}

fn entry_name_string(e: &GroupEntry) -> (r: String)
    ensures
        r@ == entry_name(*e),
{
    let mut s = String::new();
    crate::list::write_entry_name(&mut s, e);
    s
}

proof fn lemma_asks_view_append(a: Seq<Ask>, b: Seq<Ask>)
    ensures
        asks_view(a + b) == asks_view(a) + asks_view(b),
{
    assert(asks_view(a + b) =~= asks_view(a) + asks_view(b));
}

/// The questions for a value of type `t` at `path`.
fn plan_in(t: &TypeExpr, f: &File, path: &str, existing: Option<&Json>, fuel: u64) -> (r: Option<Vec<Ask>>)
    ensures
        match plan(f.rules(), *t, path@, opt_view(existing), fuel as nat) {
            Some(p) => r matches Some(v) && asks_view(v@) == p,
            None => r is None,
        },
    decreases fuel, 1nat,
{
    if fuel == 0 {
        return None;
    }
    let resolved = crate::list::resolve(t, f);
    match resolved {
        TypeExpr::Builtin(name) => {
            let mut out: Vec<Ask> = Vec::new();
            if existing.is_none() && !is_nil_name_exec(name.as_str()) {
                out.push(Ask { path: path.to_string(), kind: AskKind::Builtin(name.clone()) });
            }
            assert(asks_view(out@) =~= plan(f.rules(), *t, path@, opt_view(existing), fuel as nat)->0);
            Some(out)
        },
        TypeExpr::Group(g) => plan_fields_in(&g.entries, f, path, object_of_existing(existing), fuel - 1),
        TypeExpr::Tuple(g) => plan_fields_in(&g.entries, f, path, object_of_existing(existing), fuel - 1),
        _ => {
            let mut out: Vec<Ask> = Vec::new();
            if existing.is_none() {
                let shape = crate::list::render_type_string(resolved);
                out.push(Ask { path: path.to_string(), kind: AskKind::Raw(shape) });
            }
            assert(asks_view(out@) =~= plan(f.rules(), *t, path@, opt_view(existing), fuel as nat)->0);
            Some(out)
        },
    }
}

proof fn lemma_plan_fields_none(rules: Seq<Rule>, es: Seq<GroupEntry>, path: Seq<char>, obj: Option<Seq<(Seq<char>, JsonV)>>, f: nat, k: int)
    requires
        0 <= k <= es.len(),
        plan_fields(rules, es.take(k), path, obj, f) is None,
    ensures
        plan_fields(rules, es, path, obj, f) is None,
    decreases es.len() - k,
{
    if k < es.len() {
        assert(es.take(k + 1).drop_last() =~= es.take(k));
        lemma_plan_fields_none(rules, es, path, obj, f, k + 1);
    } else {
        assert(es.take(k) =~= es);
    }
}

#[verifier::loop_isolation(false)]
fn plan_fields_in(es: &Vec<GroupEntry>, f: &File, path: &str, obj: Option<&Vec<(String, Json)>>, g: u64) -> (r: Option<Vec<Ask>>)
    ensures
        match plan_fields(f.rules(), es@, path@, obj_view(obj), g as nat) {
            Some(p) => r matches Some(v) && asks_view(v@) == p,
            None => r is None,
        },
    decreases g, 2nat,
{
    let ghost rules = f.rules();
    let ghost ov = obj_view(obj);
    let mut out: Vec<Ask> = Vec::new();
    let mut i: usize = 0;
    assert(asks_view(out@) =~= Seq::<AskV>::empty());
    while i < es.len()
        invariant
            i <= es@.len(),
            plan_fields(rules, es@.take(i as int), path@, ov, g as nat) == Some(asks_view(out@)),
        decreases es.len() - i,
    {
        let ghost t = es@.take(i + 1);
        proof {
            assert(t.drop_last() =~= es@.take(i as int));
            assert(t.last() == es@[i as int]);
        }
        let e = &es[i];
        if !entry_is_catch_all(e) {
            let name = entry_name_string(e);
            let given = given_field_exec(obj, name.as_str());
            let asked = match given {
                Some(_) => true,
                None => default_value(&e.value_type, f).is_none() && !entry_is_optional(e),
            };
            if asked {
                let cp = child_path_exec(path, name.as_str());
                match plan_in(&e.value_type, f, cp.as_str(), given, g) {
                    None => {
                        proof {
                            lemma_plan_fields_none(rules, es@, path@, ov, g as nat, i + 1);
                        }
                        return None;
                    },
                    Some(more) => {
                        let ghost a = out@;
                        let ghost b = more@;
                        let mut more = more;
                        out.append(&mut more);
                        proof {
                            lemma_asks_view_append(a, b);
                        }
                    },
                }
            }
        }
        i = i + 1;
    }
    assert(es@.take(es.len() as int) =~= es@);
    Some(out)
}

/// The questions to ask, in order, for a request of type `t` (resolved
/// through `f`) when `existing` holds the data already given: a builtin or
/// a shape with no fixed fields that nothing was given for, inside groups
/// whose absent fields have no default and are not optional.
pub fn prompt_plan(t: &TypeExpr, f: &File, existing: Option<&Json>) -> (r: Result<Vec<Ask>, PromptError>)
    ensures
        match plan(f.rules(), *t, Seq::empty(), opt_view(existing), MAX_STEPS as nat) {
            Some(p) => r matches Ok(v) && asks_view(v@) == p,
            None => r matches Err(e) && e@ == PromptErrorV::TooDeep,
        },
{
    proof {
        reveal_strlit("");
        assert(""@ =~= Seq::<char>::empty());
    }
    match plan_in(t, f, "", existing, MAX_STEPS) {
        Some(v) => Ok(v),
        None => Err(PromptError::TooDeep),
    }
}

fn answer_at_exec(answers: &Vec<Json>, pos: usize) -> (r: (Json, usize))
    requires
        pos <= answers@.len(),
    ensures
        r.0@ == answer_at(json_list_view(answers@), pos as nat),
        r.1 as nat == advance(pos as nat, answers@.len()),
        r.1 <= answers@.len(),
{
    proof {
        crate::value::lemma_json_list_view(answers@);
    }
    if pos < answers.len() {
        (clone_json(&answers[pos]), pos + 1)
    } else {
        (Json::Null, pos)
    }
}

/// The value of type `t` from `existing` and the answers from `pos` on.
fn fill_in(t: &TypeExpr, f: &File, existing: Option<&Json>, answers: &Vec<Json>, pos: usize, fuel: u64) -> (r: (Json, usize))
    requires
        pos <= answers@.len(),
    ensures
        (r.0@, r.1 as nat) == fill(f.rules(), *t, opt_view(existing), json_list_view(answers@), pos as nat, fuel as nat),
        r.1 <= answers@.len(),
    decreases fuel, 1nat,
{
    proof {
        crate::value::lemma_json_list_view(answers@);
    }
    if fuel == 0 {
        return (Json::Null, pos);
    }
    let resolved = crate::list::resolve(t, f);
    match resolved {
        TypeExpr::Builtin(name) => match existing {
            Some(v) => (clone_json(v), pos),
            None => if is_nil_name_exec(name.as_str()) {
                (Json::Null, pos)
            } else {
                answer_at_exec(answers, pos)
            },
        },
        TypeExpr::Group(g) => fill_group_in(&g.entries, f, existing, answers, pos, fuel - 1),
        TypeExpr::Tuple(g) => fill_group_in(&g.entries, f, existing, answers, pos, fuel - 1),
        _ => match existing {
            Some(v) => (clone_json(v), pos),
            None => answer_at_exec(answers, pos),
        },
    }
}

fn clone_members(ms: &Vec<(String, Json)>) -> (r: Vec<(String, Json)>)
    ensures
        json_members_view(r@) == json_members_view(ms@),
{
    let mut out: Vec<(String, Json)> = Vec::new();
    let mut i: usize = 0;
    while i < ms.len()
        invariant
            i <= ms.len(),
            json_members_view(out@) == json_members_view(ms@.take(i as int)),
        decreases ms.len() - i,
    {
        let c = clone_json(&ms[i].1);
        let k = ms[i].0.clone();
        let ghost cv = c@;
        let ghost kv = k@;
        let ghost before = out@;
        out.push((k, c));
        proof {
            assert(out@.drop_last() =~= before);
            assert(json_members_view(out@) == json_members_view(before).push((kv, cv)));
            let t = ms@.take(i + 1);
            assert(t.drop_last() =~= ms@.take(i as int));
        }
        i = i + 1;
    }
    assert(ms@.take(ms.len() as int) =~= ms@);
    out
}

#[verifier::loop_isolation(false)]
fn fill_group_in(es: &Vec<GroupEntry>, f: &File, existing: Option<&Json>, answers: &Vec<Json>, pos: usize, g: u64) -> (r: (Json, usize))
    requires
        pos <= answers@.len(),
    ensures
        (r.0@, r.1 as nat) == fill_group(f.rules(), es@, opt_view(existing), json_list_view(answers@), pos as nat, g as nat),
        r.1 <= answers@.len(),
    decreases g, 2nat,
{
    let ghost rules = f.rules();
    let ghost av = json_list_view(answers@);
    let obj = object_of_existing(existing);
    let ghost ov = obj_view(obj);
    let mut out: Vec<(String, Json)> = match obj {
        Some(ms) => clone_members(ms),
        None => Vec::new(),
    };
    let mut p: usize = pos;
    assert(json_members_view(out@) =~= base_members(ov));
    assert(es@.take(0) =~= Seq::<GroupEntry>::empty());
    let mut i: usize = 0;
    while i < es.len()
        invariant
            i <= es@.len(),
            p <= answers@.len(),
            fill_fields(rules, es@.take(i as int), ov, base_members(ov), av, pos as nat, g as nat) == (json_members_view(out@), p as nat),
        decreases es.len() - i,
    {
        let ghost t = es@.take(i + 1);
        proof {
            assert(t.drop_last() =~= es@.take(i as int));
            assert(t.last() == es@[i as int]);
        }
        let e = &es[i];
        if !entry_is_catch_all(e) {
            let name = entry_name_string(e);
            match given_field_exec(obj, name.as_str()) {
                Some(v) => {
                    let (x, q) = fill_in(&e.value_type, f, Some(v), answers, p, g);
                    insert_member(&mut out, name, x);
                    p = q;
                },
                None => match default_value(&e.value_type, f) {
                    Some(d) => {
                        insert_member(&mut out, name, d);
                    },
                    None => {
                        if !entry_is_optional(e) {
                            let (x, q) = fill_in(&e.value_type, f, None, answers, p, g);
                            insert_member(&mut out, name, x);
                            p = q;
                        }
                    },
                },
            }
        }
        i = i + 1;
    }
    assert(es@.take(es.len() as int) =~= es@);
    (Json::Object(out), p)
}

/// The request of type `t` (resolved through `f`): `existing` with each
/// field it lacks set from the answers, taken in the order of
/// `prompt_plan`'s questions, or from the field's default.
pub fn fill_request(t: &TypeExpr, f: &File, existing: Option<&Json>, answers: &Vec<Json>) -> (r: Json)
    ensures
        r@ == fill(f.rules(), *t, opt_view(existing), json_list_view(answers@), 0, MAX_STEPS as nat).0,
{
    let (j, _) = fill_in(t, f, existing, answers, 0, MAX_STEPS);
    j
}

fn name_is(name: &str, lit: &str) -> (r: bool)
    ensures
        r == (name@ == lit@),
{
    str_eq(name, lit)
}

fn parse_i64_exec(line: &str) -> (r: Option<i64>)
    ensures
        r == parse_i64(line@),
{
    let chars = crate::text::chars_of(line);
    assert(chars@.subrange(0, chars@.len() as int) =~= line@);
    match crate::text::parse_i128_exec(&chars, 0, chars.len(), 10) {
        Some(v) => if -0x8000_0000_0000_0000 <= v && v <= 0x7fff_ffff_ffff_ffff {
            Some(v as i64)
        } else {
            None
        },
        None => None,
    }
}

fn parse_u64_exec(line: &str) -> (r: Option<u64>)
    ensures
        r == parse_u64(line@),
{
    let chars = crate::text::chars_of(line);
    assert(chars@.subrange(0, chars@.len() as int) =~= line@);
    if chars.len() > 0 && chars[0] == '-' {
        return None;
    }
    match crate::text::parse_i128_exec(&chars, 0, chars.len(), 10) {
        Some(v) => if 0 <= v && v <= 0xffff_ffff_ffff_ffff {
            Some(v as u64)
        } else {
            None
        },
        None => None,
    }
}

fn trimmed(line: &str) -> (r: Vec<char>)
    ensures
        r@ == trim(line@),
{
    let chars = crate::text::chars_of(line);
    let (a, b) = crate::text::trim_bounds(&chars);
    let mut out: Vec<char> = Vec::new();
    let mut i = a;
    while i < b
        invariant
            a <= i <= b <= chars@.len(),
            out@ == chars@.subrange(a as int, i as int),
        decreases b - i,
    {
        out.push(chars[i]);
        proof {
            assert(out@ =~= chars@.subrange(a as int, i + 1));
        }
        i = i + 1;
    }
    out
}

fn chars_are(c: &Vec<char>, w: &str) -> (r: bool)
    ensures
        r == (c@ == w@),
{
    let wc = crate::text::chars_of(w);
    if c.len() != wc.len() {
        return false;
    }
    let mut i: usize = 0;
    while i < c.len()
        invariant
            i <= c@.len(),
            c@.len() == wc@.len(),
            wc@ == w@,
            forall|k: int| 0 <= k < i ==> c@[k] == wc@[k],
        decreases c.len() - i,
    {
        if c[i] != wc[i] {
            return false;
        }
        i = i + 1;
    }
    assert(c@ =~= wc@);
    true
}

/// The JSON value that the answer `line` to `ask` gives: `as_json` is the
/// line read as JSON text and `as_float` the line read as a float made into
/// JSON, where they read (reading them is the caller's part). An integer
/// answer carries that float as what it converts to.
fn carried_float_exec(as_float: &Option<Json>) -> (r: Option<FloatNum>)
    ensures
        match r {
            Some(x) => carried_float(owned_view(*as_float)) == Some(float_view(x)),
            None => carried_float(owned_view(*as_float)) is None,
        },
{
    match as_float {
        Some(Json::Number(n)) => match &n.kind {
            NumberKind::Float(x) => Some(clone_float(x)),
            _ => None,
        },
        _ => None,
    }
}

pub fn answer_value(ask: &Ask, line: &str, as_json: Option<Json>, as_float: Option<Json>) -> (r: Result<Json, PromptError>)
    ensures
        match answer_json(ask@, line@, owned_view(as_json), owned_view(as_float)) {
            Ok(j) => r matches Ok(x) && x@ == j,
            Err(e) => r matches Err(x) && x@ == e,
        },
{
    proof {
        reveal_strlit("int");
        reveal_strlit("uint");
        reveal_strlit("float");
        reveal_strlit("bool");
        reveal_strlit("text");
        reveal_strlit("bytes");
        reveal_strlit("any");
        reveal_strlit("true");
        reveal_strlit("t");
        reveal_strlit("yes");
        reveal_strlit("y");
        reveal_strlit("false");
        reveal_strlit("f");
        reveal_strlit("no");
        reveal_strlit("n");
        assert("int"@ =~= seq!['i', 'n', 't']);
        assert("uint"@ =~= seq!['u', 'i', 'n', 't']);
        assert("float"@ =~= seq!['f', 'l', 'o', 'a', 't']);
        assert("bool"@ =~= seq!['b', 'o', 'o', 'l']);
        assert("text"@ =~= seq!['t', 'e', 'x', 't']);
        assert("bytes"@ =~= seq!['b', 'y', 't', 'e', 's']);
        assert("any"@ =~= seq!['a', 'n', 'y']);
        assert("true"@ =~= seq!['t', 'r', 'u', 'e']);
        assert("t"@ =~= seq!['t']);
        assert("yes"@ =~= seq!['y', 'e', 's']);
        assert("y"@ =~= seq!['y']);
        assert("false"@ =~= seq!['f', 'a', 'l', 's', 'e']);
        assert("f"@ =~= seq!['f']);
        assert("no"@ =~= seq!['n', 'o']);
        assert("n"@ =~= seq!['n']);
    }
    match &ask.kind {
        AskKind::Raw(shape) => match as_json {
            Some(j) => Ok(j),
            None => Err(PromptError::NotJson(ask.path.clone(), shape.clone(), line.to_string())),
        },
        AskKind::Builtin(name) => {
            let name = name.as_str();
            if name_is(name, "int") {
                match parse_i64_exec(line) {
                    Some(n) => {
                        let kind = if n < 0 {
                            NumberKind::NegInt(n)
                        } else {
                            NumberKind::PosInt(n as u64)
                        };
                        Ok(Json::Number(JsonNumber { kind, int_as_float: carried_float_exec(&as_float) }))
                    },
                    None => Err(PromptError::NotInteger(ask.path.clone(), line.to_string())),
                }
            } else if name_is(name, "uint") {
                match parse_u64_exec(line) {
                    Some(n) => Ok(Json::Number(JsonNumber { kind: NumberKind::PosInt(n), int_as_float: carried_float_exec(&as_float) })),
                    None => Err(PromptError::NotNonNegative(ask.path.clone(), line.to_string())),
                }
            } else if name_is(name, "float") {
                match as_float {
                    Some(j) => Ok(j),
                    None => Err(PromptError::NotNumber(ask.path.clone(), line.to_string())),
                }
            } else if name_is(name, "bool") {
                let w = trimmed(line);
                if chars_are(&w, "true") || chars_are(&w, "t") || chars_are(&w, "yes") || chars_are(&w, "y") {
                    Ok(Json::Bool(true))
                } else if chars_are(&w, "false") || chars_are(&w, "f") || chars_are(&w, "no") || chars_are(&w, "n") {
                    Ok(Json::Bool(false))
                } else {
                    Err(PromptError::NotBoolean(ask.path.clone(), line.to_string()))
                }
            } else if name_is(name, "text") || name_is(name, "bytes") {
                Ok(Json::Str(line.to_string()))
            } else if name_is(name, "any") {
                match as_json {
                    Some(j) => Ok(j),
                    None => Ok(Json::Str(line.to_string())),
                }
            } else {
                Err(PromptError::UnknownBuiltin(ask.path.clone(), name.to_string()))
            }
        },
    }
}

impl Ask {
    /// What the prompt for this question shows (before `": "`).
    pub fn prompt(&self) -> (r: String)
        ensures
            r@ == prompt_text(self@),
    {
        let mut s = String::new();
        s.append(self.path.as_str());
        match &self.kind {
            AskKind::Builtin(name) => {
                push_char(&mut s, ' ');
                push_char(&mut s, '(');
                s.append(name.as_str());
                push_char(&mut s, ')');
            },
            AskKind::Raw(_) => {
                s.append(" (JSON)");
            },
        }
        assert(s@ =~= prompt_text(self@));
        s
    }
}

impl PromptError {
    /// The message that describes the error.
    pub fn message(&self) -> (r: String)
        ensures
            r@ == prompt_error_message(self@),
    {
        let mut s = String::new();
        match self {
            PromptError::NotInteger(p, l) => {
                s.append(p.as_str());
                s.append(": expected an integer, got ");
                let d = debug_str(l.as_str());
                s.append(d.as_str());
            },
            PromptError::NotNonNegative(p, l) => {
                s.append(p.as_str());
                s.append(": expected a non-negative integer, got ");
                let d = debug_str(l.as_str());
                s.append(d.as_str());
            },
            PromptError::NotNumber(p, l) => {
                s.append(p.as_str());
                s.append(": expected a number, got ");
                let d = debug_str(l.as_str());
                s.append(d.as_str());
            },
            PromptError::NotBoolean(p, l) => {
                s.append(p.as_str());
                s.append(": expected true/false, got ");
                let d = debug_str(l.as_str());
                s.append(d.as_str());
            },
            PromptError::UnknownBuiltin(p, n) => {
                s.append(p.as_str());
                s.append(": unknown builtin type ");
                let d = debug_str(n.as_str());
                s.append(d.as_str());
            },
            PromptError::NotJson(p, t, l) => {
                s.append(p.as_str());
                s.append(": expected JSON matching ");
                s.append(t.as_str());
                s.append(", got ");
                let d = debug_str(l.as_str());
                s.append(d.as_str());
            },
            PromptError::TooDeep => s.append("type nesting too deep to prompt for"),
        }
        assert(s@ =~= prompt_error_message(self@));
        s
    }
}

// ----- One answer per question -----

pub open spec fn min_nat(a: nat, b: nat) -> nat {
    if a <= b {
        a
    } else {
        b
    }
}

/// Each question is answered once: filling in a value of type `t` from
/// position `pos` takes as many answers as `plan` asks questions for it
/// (and stops at the end of the answers).
pub proof fn law_one_answer_per_question(rules: Seq<Rule>, t: TypeExpr, path: Seq<char>, existing: Option<JsonV>, answers: Seq<JsonV>, pos: nat, fuel: nat)
    requires
        plan(rules, t, path, existing, fuel) is Some,
        pos <= answers.len(),
    ensures
        fill(rules, t, existing, answers, pos, fuel).1 == min_nat(
            pos + plan(rules, t, path, existing, fuel)->0.len(),
            answers.len(),
        ),
    decreases fuel, 0nat, 0nat,
{
    let r = resolve_type(rules, t);
    match r {
        TypeExpr::Group(g) => {
            lemma_fields_one_answer_per_question(rules, g.entries@, path, object_members(existing), answers, pos, (fuel - 1) as nat);
        },
        TypeExpr::Tuple(g) => {
            lemma_fields_one_answer_per_question(rules, g.entries@, path, object_members(existing), answers, pos, (fuel - 1) as nat);
        },
        _ => {},
    }
}

proof fn lemma_fields_one_answer_per_question(rules: Seq<Rule>, es: Seq<GroupEntry>, path: Seq<char>, obj: Option<Seq<(Seq<char>, JsonV)>>, answers: Seq<JsonV>, pos: nat, f: nat)
    requires
        plan_fields(rules, es, path, obj, f) is Some,
        pos <= answers.len(),
    ensures
        fill_fields(rules, es, obj, base_members(obj), answers, pos, f).1 == min_nat(
            pos + plan_fields(rules, es, path, obj, f)->0.len(),
            answers.len(),
        ),
    decreases f, 1nat, es.len(),
{
    if es.len() > 0 {
        let t = es.drop_last();
        lemma_fields_one_answer_per_question(rules, t, path, obj, answers, pos, f);
        let (ms, p) = fill_fields(rules, t, obj, base_members(obj), answers, pos, f);
        let e = es.last();
        let name = entry_name(e);
        if !is_catch_all(e) {
            match given_field(obj, name) {
                Some(v) => {
                    law_one_answer_per_question(rules, e.value_type, child_path(path, name), Some(v), answers, p, f);
                },
                None => {
                    if default_of(rules, e.value_type) is None && !is_optional(e) {
                        law_one_answer_per_question(rules, e.value_type, child_path(path, name), None, answers, p, f);
                    }
                },
            }
        }
    }
}

/// Data already given is kept as it is rather than asked for: a value
/// given for a type that is not a group takes no question and is the value
/// filled in (a group's given fields are kept the same way, field by field).
pub proof fn law_given_value_kept(rules: Seq<Rule>, t: TypeExpr, path: Seq<char>, v: JsonV, answers: Seq<JsonV>, pos: nat, fuel: nat)
    requires
        fuel > 0,
        !(resolve_type(rules, t) is Group),
        !(resolve_type(rules, t) is Tuple),
    ensures
        plan(rules, t, path, Some(v), fuel) == Some(Seq::<AskV>::empty()),
        fill(rules, t, Some(v), answers, pos, fuel) == (v, pos),
{
}

/// A catch-all entry is not asked for, nor is an absent field that is
/// optional or has a default.
pub proof fn law_entries_not_asked(rules: Seq<Rule>, e: GroupEntry, obj: Option<Seq<(Seq<char>, JsonV)>>)
    requires
        is_catch_all(e) || (given_field(obj, entry_name(e)) is None && (is_optional(e) || default_of(
            rules,
            e.value_type,
        ) is Some)),
    ensures
        !entry_asked(rules, e, obj),
{
}

} // verus!
