//! The listing of a `.csil` file: services, their operations, and the
//! resolved shape of every type.
use vstd::prelude::*;
use crate::csil::{
    Literal, TypeExpr, Group, GroupEntry, GroupKey, ControlOp, Occurrence, SizeConstraint, Rule, File,
    RuleKind, ServiceOp, Direction, find_operation_from, definition_names,
    find_definition, find_definition_in, definition_type, str_eq,
};
use crate::color::{Style, styled, colorize, field_line_spec, field_line};
use crate::text::{lemma_decimal_nonempty, decimal, signed_decimal, str_debug, push_char, push_decimal, fmt_i128, debug_str};

verus! {

/// `items` rendered one after another, separated by `", "`.
pub open spec fn render_literal_list(items: Seq<Literal>) -> Seq<char>
    decreases items,
{
    if items.len() == 0 {
        Seq::empty()
    } else if items.len() == 1 {
        render_literal(items[0])
    } else {
        render_literal_list(items.drop_last()) + seq![',', ' '] + render_literal(items.last())
    }
}

/// Bytes in `Debug` form: decimal values in brackets, separated by `", "`.
pub open spec fn render_byte_list(bytes: Seq<u8>) -> Seq<char>
    decreases bytes.len(),
{
    if bytes.len() == 0 {
        Seq::empty()
    } else if bytes.len() == 1 {
        decimal(bytes[0] as nat)
    } else {
        render_byte_list(bytes.drop_last()) + seq![',', ' '] + decimal(bytes.last() as nat)
    }
}

/// A literal as the listing shows it.
pub open spec fn render_literal(lit: Literal) -> Seq<char>
    decreases lit,
{
    match lit {
        Literal::Integer(n) => signed_decimal(n as int),
        Literal::Float(f) => f.text@,
        Literal::Text(s) => str_debug(s@),
        Literal::Bytes(b) => seq!['['] + render_byte_list(b@) + seq![']'],
        Literal::Bool(b) => if b {
            seq!['t', 'r', 'u', 'e']
        } else {
            seq!['f', 'a', 'l', 's', 'e']
        },
        Literal::Null => seq!['n', 'u', 'l', 'l'],
        Literal::Array(items) => seq!['['] + render_literal_list(items@) + seq![']'],
    }
}

#[verifier::loop_isolation(false)]
fn write_literal(out: &mut String, lit: &Literal)
    ensures
        final(out)@ == old(out)@ + render_literal(*lit),
    decreases lit,
{
    match lit {
        Literal::Integer(n) => {
            let s = fmt_i128(*n as i128);
            out.append(s.as_str());
        },
        Literal::Float(f) => {
            out.append(f.text.as_str());
        },
        Literal::Text(s) => {
            let d = debug_str(s.as_str());
            out.append(d.as_str());
        },
        Literal::Bytes(b) => {
            push_char(out, '[');
            let mut i: usize = 0;
            while i < b.len()
                invariant
                    i <= b.len(),
                    out@ == old(out)@ + seq!['['] + render_byte_list(b@.take(i as int)),
                decreases b.len() - i,
            {
                if i > 0 {
                    push_char(out, ',');
                    push_char(out, ' ');
                }
                push_decimal(out, b[i] as u128);
                proof {
                    let t = b@.take(i + 1);
                    assert(t.drop_last() =~= b@.take(i as int));
                }
                i = i + 1;
            }
            assert(b@.take(b.len() as int) =~= b@);
            push_char(out, ']');
        },
        Literal::Bool(b) => {
            if *b {
                out.append("true");
                proof { reveal_strlit("true"); }
            } else {
                out.append("false");
                proof { reveal_strlit("false"); }
            }
        },
        Literal::Null => {
            out.append("null");
            proof { reveal_strlit("null"); }
        },
        Literal::Array(items) => {
            push_char(out, '[');
            let mut i: usize = 0;
            while i < items.len()
                invariant
                    i <= items.len(),
                    out@ == old(out)@ + seq!['['] + render_literal_list(items@.take(i as int)),
                decreases items.len() - i,
            {
                if i > 0 {
                    push_char(out, ',');
                    push_char(out, ' ');
                }
                proof {
                    assert(decreases_to!(*lit => items@[i as int]));
                }
                write_literal(out, &items[i]);
                proof {
                    let t = items@.take(i + 1);
                    assert(t.drop_last() =~= items@.take(i as int));
                }
                i = i + 1;
            }
            assert(items@.take(items.len() as int) =~= items@);
            push_char(out, ']');
        },
    }
}


/// Follows `t` through the file's definitions while it is a reference to a
/// name not yet visited (`seen`): stops at a type that is not a reference,
/// at a name the file does not define, and at a name met before (a cycle).
pub open spec fn resolve_from(rules: Seq<Rule>, t: TypeExpr, seen: Seq<Seq<char>>) -> TypeExpr
    decreases rules.len() - seen.len(),
{
    match t {
        TypeExpr::Reference(n) => {
            if seen.contains(n@) {
                t
            } else {
                match find_definition(rules, n@) {
                    Some(i) => if seen.len() < rules.len() {
                        resolve_from(rules, definition_type(rules, i), seen.push(n@))
                    } else {
                        t
                    },
                    None => t,
                }
            }
        },
        _ => t,
    }
}

/// `t` with its chain of references followed through the file's
/// definitions: to a builtin or structural type, an unknown name, or the
/// reference that closes a cycle.
pub open spec fn resolve_type(rules: Seq<Rule>, t: TypeExpr) -> TypeExpr {
    resolve_from(rules, t, Seq::empty())
}

/// The names of all rules.
pub open spec fn rule_names(rules: Seq<Rule>) -> Set<Seq<char>> {
    rules.map_values(|r: Rule| r.name@).to_set()
}

proof fn lemma_seen_bounded(rules: Seq<Rule>, seen: Seq<Seq<char>>, n: Seq<char>)
    requires
        seen.no_duplicates(),
        forall|i: int| 0 <= i < seen.len() ==> rule_names(rules).contains(#[trigger] seen[i]),
        !seen.contains(n),
        rule_names(rules).contains(n),
    ensures
        seen.len() < rules.len(),
{
    let s2 = seen.push(n);
    assert(s2.no_duplicates()) by {
        assert forall|i: int, j: int| 0 <= i < s2.len() && 0 <= j < s2.len() && i != j implies s2[i] != s2[j] by {
            if i == seen.len() as int {
                assert(seen.contains(s2[j]));
            } else if j == seen.len() as int {
                assert(seen.contains(s2[i]));
            } else {
                assert(s2[i] == seen[i] && s2[j] == seen[j]);
            }
        }
    }
    s2.unique_seq_to_set();
    let names = rules.map_values(|r: Rule| r.name@);
    names.lemma_cardinality_of_set();
    assert(s2.to_set().subset_of(names.to_set())) by {
        assert forall|x: Seq<char>| s2.to_set().contains(x) implies names.to_set().contains(x) by {
            let k = choose|k: int| 0 <= k < s2.len() && s2[k] == x;
            if k < seen.len() {
                assert(rule_names(rules).contains(seen[k]));
            }
        }
    }
    vstd::seq_lib::seq_to_set_is_finite(names);
    vstd::set_lib::lemma_len_subset(s2.to_set(), names.to_set());
}

proof fn lemma_definition_named(rules: Seq<Rule>, name: Seq<char>, n: int)
    requires
        0 <= n <= rules.len(),
    ensures
        find_definition_in(rules, name, n) matches Some(i) ==> 0 <= i < n && rules[i].name@ == name
            && rules[i].kind is Definition && rule_names(rules).contains(name),
    decreases n,
{
    if n > 0 {
        lemma_definition_named(rules, name, n - 1);
        match find_definition_in(rules, name, n) {
            Some(i) => {
                let names = rules.map_values(|r: Rule| r.name@);
                assert(names[i] == name);
            },
            None => {},
        }
    }
}

/// The type that the defined name `name` stands for.
pub open spec fn definition_of(rules: Seq<Rule>, name: Seq<char>) -> TypeExpr {
    definition_type(rules, find_definition(rules, name)->0)
}

/// `seen` is a chain of defined names, each but the last defined as a
/// reference to the next, and the last defined as `t`.
pub open spec fn is_chain(rules: Seq<Rule>, seen: Seq<Seq<char>>, t: TypeExpr) -> bool {
    &&& forall|j: int| 0 <= j < seen.len() ==> #[trigger] find_definition(rules, seen[j]) is Some
    &&& forall|j: int|
        0 <= j < seen.len() - 1 ==> (#[trigger] definition_of(rules, seen[j]) is Reference
            && definition_of(rules, seen[j])->Reference_0@ == seen[j + 1])
    &&& seen.len() > 0 ==> definition_of(rules, seen.last()) == t
}

/// Walking round a cycle of references `c` (each defined as a reference to
/// the next, the last as `t`, a reference to the first) from its `j`-th
/// name ends at `t`.
proof fn lemma_cycle_walk(rules: Seq<Rule>, c: Seq<Seq<char>>, t: TypeExpr, cur: TypeExpr, j: int)
    requires
        c.len() > 0,
        c.no_duplicates(),
        forall|i: int| 0 <= i < c.len() ==> rule_names(rules).contains(#[trigger] c[i]),
        is_chain(rules, c, t),
        t is Reference,
        t->Reference_0@ == c[0],
        0 <= j <= c.len(),
        j == c.len() ==> cur == t,
        j < c.len() ==> cur is Reference && cur->Reference_0@ == c[j],
        0 < j < c.len() ==> cur == definition_of(rules, c[j - 1]),
    ensures
        resolve_from(rules, cur, c.take(j)) == t,
    decreases c.len() - j,
{
    if j == c.len() {
        assert(c.take(j) =~= c);
        assert(c.contains(c[0]));
    } else {
        let n = c[j];
        assert(!c.take(j).contains(n)) by {
            if c.take(j).contains(n) {
                let k = choose|k: int| 0 <= k < c.take(j).len() && c.take(j)[k] == n;
                assert(c[k] == c[j]);
            }
        }
        assert(find_definition(rules, n) is Some);
        lemma_definition_named(rules, n, rules.len() as int);
        assert forall|i: int| 0 <= i < c.take(j).len() implies rule_names(rules).contains(#[trigger] c.take(j)[i]) by {
            assert(c.take(j)[i] == c[i]);
        }
        assert(c.take(j).no_duplicates()) by {
            assert forall|a: int, b: int| 0 <= a < c.take(j).len() && 0 <= b < c.take(j).len() && a != b
                implies c.take(j)[a] != c.take(j)[b] by {
                assert(c.take(j)[a] == c[a] && c.take(j)[b] == c[b]);
            }
        }
        lemma_seen_bounded(rules, c.take(j), n);
        assert(c.take(j).push(n) =~= c.take(j + 1));
        let next = definition_of(rules, n);
        if j + 1 < c.len() {
            assert(definition_of(rules, c[j]) is Reference);
        } else {
            assert(c.last() == c[j]);
        }
        lemma_cycle_walk(rules, c, t, next, j + 1);
    }
}

/// A walk that ends at a reference to a defined name ends on a cycle: the
/// reference, resolved again, gives itself back.
proof fn lemma_resolve_ends_on_cycle(rules: Seq<Rule>, t: TypeExpr, seen: Seq<Seq<char>>)
    requires
        seen.no_duplicates(),
        forall|i: int| 0 <= i < seen.len() ==> rule_names(rules).contains(#[trigger] seen[i]),
        is_chain(rules, seen, t),
    ensures
        resolve_from(rules, t, seen) is Reference && find_definition(
            rules,
            resolve_from(rules, t, seen)->Reference_0@,
        ) is Some ==> resolve_type(rules, resolve_from(rules, t, seen)) == resolve_from(rules, t, seen),
    decreases rules.len() - seen.len(),
{
    match t {
        TypeExpr::Reference(n) => {
            if seen.contains(n@) {
                let k = choose|k: int| 0 <= k < seen.len() && seen[k] == n@;
                let c = seen.skip(k);
                assert forall|i: int| 0 <= i < c.len() implies rule_names(rules).contains(#[trigger] c[i]) by {
                    assert(c[i] == seen[k + i]);
                }
                assert(c.no_duplicates()) by {
                    assert forall|a: int, b: int| 0 <= a < c.len() && 0 <= b < c.len() && a != b implies c[a]
                        != c[b] by {
                        assert(c[a] == seen[k + a] && c[b] == seen[k + b]);
                    }
                }
                assert(is_chain(rules, c, t)) by {
                    assert forall|j: int| 0 <= j < c.len() implies #[trigger] find_definition(rules, c[j]) is Some by {
                        assert(c[j] == seen[k + j]);
                    }
                    assert forall|j: int| 0 <= j < c.len() - 1 implies (#[trigger] definition_of(rules, c[j]) is Reference
                        && definition_of(rules, c[j])->Reference_0@ == c[j + 1]) by {
                        assert(c[j] == seen[k + j] && c[j + 1] == seen[k + j + 1]);
                    }
                    assert(c.last() == seen.last());
                }
                lemma_cycle_walk(rules, c, t, t, 0);
                assert(c.take(0) =~= Seq::<Seq<char>>::empty());
            } else {
                match find_definition(rules, n@) {
                    Some(i) => {
                        lemma_definition_named(rules, n@, rules.len() as int);
                        lemma_seen_bounded(rules, seen, n@);
                        let s2 = seen.push(n@);
                        let t2 = definition_type(rules, i);
                        assert(s2.no_duplicates()) by {
                            assert forall|a: int, b: int| 0 <= a < s2.len() && 0 <= b < s2.len() && a != b implies s2[a]
                                != s2[b] by {
                                if a == seen.len() {
                                    assert(seen.contains(s2[b]));
                                } else if b == seen.len() {
                                    assert(seen.contains(s2[a]));
                                } else {
                                    assert(s2[a] == seen[a] && s2[b] == seen[b]);
                                }
                            }
                        }
                        assert forall|x: int| 0 <= x < s2.len() implies rule_names(rules).contains(#[trigger] s2[x]) by {
                            if x < seen.len() {
                                assert(s2[x] == seen[x]);
                            }
                        }
                        assert(is_chain(rules, s2, t2)) by {
                            assert forall|j: int| 0 <= j < s2.len() implies #[trigger] find_definition(rules, s2[j]) is Some by {
                                if j < seen.len() {
                                    assert(s2[j] == seen[j]);
                                }
                            }
                            assert forall|j: int| 0 <= j < s2.len() - 1 implies (#[trigger] definition_of(rules, s2[j]) is Reference
                                && definition_of(rules, s2[j])->Reference_0@ == s2[j + 1]) by {
                                assert(s2[j] == seen[j]);
                                if j == seen.len() - 1 {
                                    assert(seen.last() == seen[j]);
                                } else {
                                    assert(s2[j + 1] == seen[j + 1]);
                                }
                            }
                        }
                        lemma_resolve_ends_on_cycle(rules, t2, s2);
                    },
                    None => {},
                }
            }
        },
        _ => {},
    }
}

/// Resolving stops for good: a resolved type resolves to itself (it is not
/// a reference, or a reference to a name that is not defined, or the
/// reference that closes a cycle).
pub proof fn law_resolve_idempotent(rules: Seq<Rule>, t: TypeExpr)
    ensures
        resolve_type(rules, resolve_type(rules, t)) == resolve_type(rules, t),
{
    let e: Seq<Seq<char>> = Seq::empty();
    lemma_resolve_ends_on_cycle(rules, t, e);
}

/// The texts of a sequence of string slices.
pub open spec fn str_views(s: Seq<&str>) -> Seq<Seq<char>> {
    s.map_values(|x: &str| x@)
}

fn seen_contains(seen: &Vec<&str>, name: &str) -> (r: bool)
    ensures
        r == str_views(seen@).contains(name@),
{
    let ghost views = str_views(seen@);
    let mut i: usize = 0;
    while i < seen.len()
        invariant
            i <= seen.len(),
            views == str_views(seen@),
            forall|j: int| 0 <= j < i ==> views[j] != name@,
        decreases seen.len() - i,
    {
        if str_eq(seen[i], name) {
            assert(views[i as int] == name@);
            return true;
        }
        i = i + 1;
    }
    false
}

/// Follows `t` through the file's definitions (see `resolve_type`).
pub fn resolve<'a>(t: &'a TypeExpr, f: &'a File) -> (r: &'a TypeExpr)
    ensures
        *r == resolve_type(f.rules(), *t),
{
    let ghost rules = f.rules();
    let mut seen: Vec<&str> = Vec::new();
    let mut current: &TypeExpr = t;
    assert(str_views(seen@) =~= Seq::<Seq<char>>::empty());
    loop
        invariant
            rules == f.rules(),
            resolve_type(rules, *t) == resolve_from(rules, *current, str_views(seen@)),
            str_views(seen@).no_duplicates(),
            forall|i: int| 0 <= i < seen@.len() ==> rule_names(rules).contains(#[trigger] str_views(seen@)[i]),
            seen@.len() <= rules.len(),
        decreases rules.len() - seen@.len(),
    {
        let ghost views = str_views(seen@);
        match current {
            TypeExpr::Reference(n) => {
                if seen_contains(&seen, n.as_str()) {
                    return current;
                }
                match f.find_definition(n.as_str()) {
                    None => {
                        return current;
                    },
                    Some(i) => {
                        proof {
                            lemma_definition_named(rules, n@, rules.len() as int);
                            lemma_seen_bounded(rules, views, n@);
                        }
                        let rule = f.rule(i);
                        match &rule.kind {
                            crate::csil::RuleKind::Definition(def) => {
                                seen.push(n.as_str());
                                proof {
                                    let v2 = str_views(seen@);
                                    assert(v2 =~= views.push(n@));
                                }
                                current = def;
                            },
                            _ => {
                                proof {
                                    assert(false);
                                }
                                return current;
                            },
                        }
                    },
                }
            },
            _ => {
                return current;
            },
        }
    }
}


/// An occurrence indicator as the listing shows it.
pub open spec fn render_occurrence(occ: Option<Occurrence>) -> Seq<char> {
    match occ {
        None => Seq::empty(),
        Some(Occurrence::Optional) => seq!['?'],
        Some(Occurrence::ZeroOrMore) => seq!['*'],
        Some(Occurrence::OneOrMore) => seq!['+'],
        Some(Occurrence::Exact(n)) => decimal(n as nat),
        Some(Occurrence::Range { min, max }) => match (min, max) {
            (Some(a), Some(b)) => decimal(a as nat) + seq!['*'] + decimal(b as nat),
            (Some(a), None) => decimal(a as nat) + seq!['*'],
            (None, Some(b)) => seq!['*'] + decimal(b as nat),
            (None, None) => seq!['*'],
        },
    }
}

fn write_occurrence(out: &mut String, occ: Option<Occurrence>)
    ensures
        final(out)@ == old(out)@ + render_occurrence(occ),
{
    match occ {
        None => {},
        Some(Occurrence::Optional) => push_char(out, '?'),
        Some(Occurrence::ZeroOrMore) => push_char(out, '*'),
        Some(Occurrence::OneOrMore) => push_char(out, '+'),
        Some(Occurrence::Exact(n)) => push_decimal(out, n as u128),
        Some(Occurrence::Range { min, max }) => match (min, max) {
            (Some(a), Some(b)) => {
                push_decimal(out, a as u128);
                push_char(out, '*');
                push_decimal(out, b as u128);
            },
            (Some(a), None) => {
                push_decimal(out, a as u128);
                push_char(out, '*');
            },
            (None, Some(b)) => {
                push_char(out, '*');
                push_decimal(out, b as u128);
            },
            (None, None) => push_char(out, '*'),
        },
    }
}

/// The name a group entry is listed under: its bare name, its literal key,
/// or `*` for a catch-all (typed) key or no key.
pub open spec fn entry_name(entry: GroupEntry) -> Seq<char> {
    match entry.key {
        Some(GroupKey::Bare(n)) => n@,
        Some(GroupKey::Literal(lit)) => render_literal(lit),
        _ => seq!['*'],
    }
}

/// Appends the name a group entry is listed under.
pub fn write_entry_name(out: &mut String, entry: &GroupEntry)
    ensures
        final(out)@ == old(out)@ + entry_name(*entry),
{
    match &entry.key {
        Some(GroupKey::Bare(n)) => out.append(n.as_str()),
        Some(GroupKey::Literal(lit)) => write_literal(out, lit),
        _ => push_char(out, '*'),
    }
}

/// The names of `entries`, separated by `", "`.
pub open spec fn render_entry_names(entries: Seq<GroupEntry>) -> Seq<char>
    decreases entries.len(),
{
    if entries.len() == 0 {
        Seq::empty()
    } else if entries.len() == 1 {
        entry_name(entries[0])
    } else {
        render_entry_names(entries.drop_last()) + seq![',', ' '] + entry_name(entries.last())
    }
}

/// A group as the listing shows it: its entry names in braces.
pub open spec fn render_group(g: Group) -> Seq<char> {
    seq!['{'] + render_entry_names(g.entries@) + seq!['}']
}

fn write_group(out: &mut String, g: &Group)
    ensures
        final(out)@ == old(out)@ + render_group(*g),
{
    push_char(out, '{');
    let mut i: usize = 0;
    while i < g.entries.len()
        invariant
            i <= g.entries.len(),
            out@ == old(out)@ + seq!['{'] + render_entry_names(g.entries@.take(i as int)),
        decreases g.entries.len() - i,
    {
        if i > 0 {
            push_char(out, ',');
            push_char(out, ' ');
        }
        write_entry_name(out, &g.entries[i]);
        proof {
            let t = g.entries@.take(i + 1);
            assert(t.drop_last() =~= g.entries@.take(i as int));
        }
        i = i + 1;
    }
    assert(g.entries@.take(g.entries.len() as int) =~= g.entries@);
    push_char(out, '}');
}

/// An optional bound of a range type: its decimal notation, or nothing.
pub open spec fn render_bound(b: Option<i64>) -> Seq<char> {
    match b {
        Some(n) => signed_decimal(n as int),
        None => Seq::empty(),
    }
}

/// A type expression as the listing shows it, control operators included.
pub open spec fn render_type(t: TypeExpr) -> Seq<char>
    decreases t,
{
    match t {
        TypeExpr::Builtin(s) => s@,
        TypeExpr::Reference(s) => s@,
        TypeExpr::Literal(lit) => render_literal(lit),
        TypeExpr::Group(g) => render_group(g),
        TypeExpr::Tuple(g) => render_group(g),
        TypeExpr::Array { element_type, occurrence } => {
            let occ = render_occurrence(occurrence);
            seq!['['] + (if occ.len() == 0 { occ } else { occ + seq![' '] }) + render_type(*element_type)
                + seq![']']
        },
        TypeExpr::MapType { key, value } => seq!['{', '*', ' '] + render_type(*key) + seq![
            ' ',
            '=',
            '>',
            ' ',
        ] + render_type(*value) + seq!['}'],
        TypeExpr::Choice(arms) => render_choice(arms@),
        TypeExpr::Range { start, end, inclusive } => render_bound(start) + (if inclusive {
            seq!['.', '.', '.']
        } else {
            seq!['.', '.']
        }) + render_bound(end),
        TypeExpr::Socket(s) => seq!['$'] + s@,
        TypeExpr::Plug(s) => seq!['~'] + s@,
        TypeExpr::Constrained { base_type, constraints } => render_type(*base_type) + seq![' ']
            + render_ops(constraints@),
    }
}

/// The arms of a choice, separated by `" / "`.
pub open spec fn render_choice(arms: Seq<TypeExpr>) -> Seq<char>
    decreases arms,
{
    if arms.len() == 0 {
        Seq::empty()
    } else if arms.len() == 1 {
        render_type(arms[0])
    } else {
        render_choice(arms.drop_last()) + seq![' ', '/', ' '] + render_type(arms.last())
    }
}

/// Control operators, separated by single spaces.
pub open spec fn render_ops(ops: Seq<ControlOp>) -> Seq<char>
    decreases ops,
{
    if ops.len() == 0 {
        Seq::empty()
    } else if ops.len() == 1 {
        render_op(ops[0])
    } else {
        render_ops(ops.drop_last()) + seq![' '] + render_op(ops.last())
    }
}

/// `name` followed by `arg` in parentheses.
pub open spec fn call(name: Seq<char>, arg: Seq<char>) -> Seq<char> {
    name + seq!['('] + arg + seq![')']
}

/// A control operator as the listing shows it.
pub open spec fn render_op(op: ControlOp) -> Seq<char>
    decreases op,
{
    match op {
        ControlOp::Size(sc) => call(
            seq!['.', 's', 'i', 'z', 'e'],
            match sc {
                SizeConstraint::Exact(n) => decimal(n as nat),
                SizeConstraint::Range { min, max } => decimal(min as nat) + seq!['.', '.'] + decimal(
                    max as nat,
                ),
                SizeConstraint::Min(n) => decimal(n as nat) + seq!['.', '.'],
                SizeConstraint::Max(n) => seq!['.', '.'] + decimal(n as nat),
            },
        ),
        ControlOp::Regex(s) => call(seq!['.', 'r', 'e', 'g', 'e', 'x'], s@),
        ControlOp::Default(v) => call(seq!['.', 'd', 'e', 'f', 'a', 'u', 'l', 't'], render_literal(v)),
        ControlOp::GreaterEqual(v) => call(seq!['.', 'g', 'e'], render_literal(v)),
        ControlOp::LessEqual(v) => call(seq!['.', 'l', 'e'], render_literal(v)),
        ControlOp::GreaterThan(v) => call(seq!['.', 'g', 't'], render_literal(v)),
        ControlOp::LessThan(v) => call(seq!['.', 'l', 't'], render_literal(v)),
        ControlOp::Equal(v) => call(seq!['.', 'e', 'q'], render_literal(v)),
        ControlOp::NotEqual(v) => call(seq!['.', 'n', 'e'], render_literal(v)),
        ControlOp::Bits(s) => call(seq!['.', 'b', 'i', 't', 's'], s@),
        ControlOp::And(t) => call(seq!['.', 'a', 'n', 'd'], render_type(t)),
        ControlOp::Within(t) => call(seq!['.', 'w', 'i', 't', 'h', 'i', 'n'], render_type(t)),
        ControlOp::Json => seq!['.', 'j', 's', 'o', 'n'],
        ControlOp::Cbor => seq!['.', 'c', 'b', 'o', 'r'],
        ControlOp::Cborseq => seq!['.', 'c', 'b', 'o', 'r', 's', 'e', 'q'],
    }
}

fn write_str(out: &mut String, s: &str)
    ensures
        final(out)@ == old(out)@ + s@,
{
    out.append(s);
}

fn write_call_open(out: &mut String, name: &str)
    ensures
        final(out)@ == old(out)@ + name@ + seq!['('],
{
    out.append(name);
    push_char(out, '(');
}

#[verifier::loop_isolation(false)]
fn write_op(out: &mut String, op: &ControlOp)
    ensures
        final(out)@ == old(out)@ + render_op(*op),
    decreases op,
{
    let ghost start = out@;
    match op {
        ControlOp::Size(sc) => {
            write_call_open(out, ".size");
            proof { reveal_strlit(".size"); }
            match sc {
                SizeConstraint::Exact(n) => push_decimal(out, *n as u128),
                SizeConstraint::Range { min, max } => {
                    push_decimal(out, *min as u128);
                    push_char(out, '.');
                    push_char(out, '.');
                    push_decimal(out, *max as u128);
                },
                SizeConstraint::Min(n) => {
                    push_decimal(out, *n as u128);
                    push_char(out, '.');
                    push_char(out, '.');
                },
                SizeConstraint::Max(n) => {
                    push_char(out, '.');
                    push_char(out, '.');
                    push_decimal(out, *n as u128);
                },
            }
            push_char(out, ')');
            assert(out@ =~= start + render_op(*op));
        },
        ControlOp::Regex(s) => {
            write_call_open(out, ".regex");
            proof { reveal_strlit(".regex"); }
            out.append(s.as_str());
            push_char(out, ')');
            assert(out@ =~= start + render_op(*op));
        },
        ControlOp::Bits(s) => {
            write_call_open(out, ".bits");
            proof { reveal_strlit(".bits"); }
            out.append(s.as_str());
            push_char(out, ')');
            assert(out@ =~= start + render_op(*op));
        },
        ControlOp::Default(v) => {
            write_call_open(out, ".default");
            proof { reveal_strlit(".default"); }
            write_literal(out, v);
            push_char(out, ')');
            assert(out@ =~= start + render_op(*op));
        },
        ControlOp::GreaterEqual(v) => {
            write_call_open(out, ".ge");
            proof { reveal_strlit(".ge"); }
            write_literal(out, v);
            push_char(out, ')');
            assert(out@ =~= start + render_op(*op));
        },
        ControlOp::LessEqual(v) => {
            write_call_open(out, ".le");
            proof { reveal_strlit(".le"); }
            write_literal(out, v);
            push_char(out, ')');
            assert(out@ =~= start + render_op(*op));
        },
        ControlOp::GreaterThan(v) => {
            write_call_open(out, ".gt");
            proof { reveal_strlit(".gt"); }
            write_literal(out, v);
            push_char(out, ')');
            assert(out@ =~= start + render_op(*op));
        },
        ControlOp::LessThan(v) => {
            write_call_open(out, ".lt");
            proof { reveal_strlit(".lt"); }
            write_literal(out, v);
            push_char(out, ')');
            assert(out@ =~= start + render_op(*op));
        },
        ControlOp::Equal(v) => {
            write_call_open(out, ".eq");
            proof { reveal_strlit(".eq"); }
            write_literal(out, v);
            push_char(out, ')');
            assert(out@ =~= start + render_op(*op));
        },
        ControlOp::NotEqual(v) => {
            write_call_open(out, ".ne");
            proof { reveal_strlit(".ne"); }
            write_literal(out, v);
            push_char(out, ')');
            assert(out@ =~= start + render_op(*op));
        },
        ControlOp::And(t) => {
            write_call_open(out, ".and");
            proof { reveal_strlit(".and"); }
            write_type(out, t);
            push_char(out, ')');
            assert(out@ =~= start + render_op(*op));
        },
        ControlOp::Within(t) => {
            write_call_open(out, ".within");
            proof { reveal_strlit(".within"); }
            write_type(out, t);
            push_char(out, ')');
            assert(out@ =~= start + render_op(*op));
        },
        ControlOp::Json => {
            write_str(out, ".json");
            proof { reveal_strlit(".json"); }
        },
        ControlOp::Cbor => {
            write_str(out, ".cbor");
            proof { reveal_strlit(".cbor"); }
        },
        ControlOp::Cborseq => {
            write_str(out, ".cborseq");
            proof { reveal_strlit(".cborseq"); }
        },
    }
}

fn write_bound(out: &mut String, b: Option<i64>)
    ensures
        final(out)@ == old(out)@ + render_bound(b),
{
    match b {
        Some(n) => {
            let s = fmt_i128(n as i128);
            out.append(s.as_str());
        },
        None => {},
    }
}

/// Appends `render_type(*t)`.
#[verifier::loop_isolation(false)]
pub fn write_type(out: &mut String, t: &TypeExpr)
    ensures
        final(out)@ == old(out)@ + render_type(*t),
    decreases t,
{
    let ghost start = out@;
    match t {
        TypeExpr::Builtin(s) => out.append(s.as_str()),
        TypeExpr::Reference(s) => out.append(s.as_str()),
        TypeExpr::Literal(lit) => write_literal(out, lit),
        TypeExpr::Group(g) => write_group(out, g),
        TypeExpr::Tuple(g) => write_group(out, g),
        TypeExpr::Array { element_type, occurrence } => {
            push_char(out, '[');
            let ghost mid = out@;
            write_occurrence(out, *occurrence);
            proof {
                if let Some(o) = *occurrence {
                    match o {
                        Occurrence::Exact(n) => lemma_decimal_nonempty(n as nat),
                        Occurrence::Range { min, max } => if let Some(a) = min {
                            lemma_decimal_nonempty(a as nat);
                        },
                        _ => {},
                    }
                }
            }
            if occurrence.is_some() {
                push_char(out, ' ');
            }
            write_type(out, element_type);
            push_char(out, ']');
            assert(out@ =~= start + render_type(*t));
        },
        TypeExpr::MapType { key, value } => {
            push_char(out, '{');
            push_char(out, '*');
            push_char(out, ' ');
            write_type(out, key);
            write_str(out, " => ");
            proof { reveal_strlit(" => "); }
            write_type(out, value);
            push_char(out, '}');
            assert(out@ =~= start + render_type(*t));
        },
        TypeExpr::Choice(arms) => {
            let mut i: usize = 0;
            while i < arms.len()
                invariant
                    i <= arms.len(),
                    out@ == start + render_choice(arms@.take(i as int)),
                decreases arms.len() - i,
            {
                if i > 0 {
                    write_str(out, " / ");
                    proof { reveal_strlit(" / "); }
                }
                proof {
                    assert(decreases_to!(*t => arms@[i as int]));
                }
                write_type(out, &arms[i]);
                proof {
                    let tk = arms@.take(i + 1);
                    assert(tk.drop_last() =~= arms@.take(i as int));
                }
                i = i + 1;
            }
            assert(arms@.take(arms.len() as int) =~= arms@);
        },
        TypeExpr::Range { start: lo, end: hi, inclusive } => {
            write_bound(out, *lo);
            if *inclusive {
                write_str(out, "...");
                proof { reveal_strlit("..."); }
            } else {
                write_str(out, "..");
                proof { reveal_strlit(".."); }
            }
            write_bound(out, *hi);
            assert(out@ =~= start + render_type(*t));
        },
        TypeExpr::Socket(s) => {
            push_char(out, '$');
            out.append(s.as_str());
        },
        TypeExpr::Plug(s) => {
            push_char(out, '~');
            out.append(s.as_str());
        },
        TypeExpr::Constrained { base_type, constraints } => {
            write_type(out, base_type);
            push_char(out, ' ');
            let ghost mid = out@;
            let mut i: usize = 0;
            while i < constraints.len()
                invariant
                    i <= constraints.len(),
                    out@ == mid + render_ops(constraints@.take(i as int)),
                decreases constraints.len() - i,
            {
                if i > 0 {
                    push_char(out, ' ');
                }
                proof {
                    assert(decreases_to!(*t => constraints@[i as int]));
                }
                write_op(out, &constraints[i]);
                proof {
                    let tk = constraints@.take(i + 1);
                    assert(tk.drop_last() =~= constraints@.take(i as int));
                }
                i = i + 1;
            }
            assert(constraints@.take(constraints.len() as int) =~= constraints@);
            assert(out@ =~= start + render_type(*t));
        },
    }
}

/// A type expression as the listing shows it.
pub fn render_type_string(t: &TypeExpr) -> (r: String)
    ensures
        r@ == render_type(*t),
{
    let mut out = String::new();
    write_type(&mut out, t);
    out
}


/// Two spaces more than `indent`.
pub open spec fn deeper(indent: Seq<char>) -> Seq<char> {
    indent + seq![' ', ' ']
}

fn deeper_exec(indent: &str) -> (r: String)
    ensures
        r@ == deeper(indent@),
{
    let mut r = String::from_str(indent);
    r.append("  ");
    proof {
        reveal_strlit("  ");
    }
    r
}

fn write_styled(out: &mut String, c: bool, style: Style, s: &str)
    ensures
        final(out)@ == old(out)@ + styled(c, style, s@),
{
    let t = colorize(c, style, s);
    out.append(t.as_str());
}

/// A line `{indent}{text}\n` with the text in the given style.
pub open spec fn styled_line(c: bool, indent: Seq<char>, style: Style, text: Seq<char>) -> Seq<char> {
    indent + styled(c, style, text) + seq!['\n']
}

fn write_styled_line(out: &mut String, c: bool, indent: &str, style: Style, text: &str)
    ensures
        final(out)@ == old(out)@ + styled_line(c, indent@, style, text@),
{
    out.append(indent);
    write_styled(out, c, style, text);
    push_char(out, '\n');
}

/// The name a group entry is listed under, with a trailing `?` when the
/// entry is optional.
pub open spec fn field_label(e: GroupEntry) -> Seq<char> {
    if e.occurrence == Some(Occurrence::Optional) {
        entry_name(e) + seq!['?']
    } else {
        entry_name(e)
    }
}

/// One line per entry: its label and its declared type.
pub open spec fn field_lines(c: bool, indent: Seq<char>, entries: Seq<GroupEntry>) -> Seq<char>
    decreases entries.len(),
{
    if entries.len() == 0 {
        Seq::empty()
    } else {
        field_lines(c, indent, entries.drop_last()) + field_line_spec(
            c,
            indent,
            field_label(entries.last()),
            render_type(entries.last().value_type),
        )
    }
}

/// What a type holds, at `indent`: one line per field when it resolves to a
/// group, else one line with the resolved type.
pub open spec fn contents(rules: Seq<Rule>, c: bool, indent: Seq<char>, t: TypeExpr) -> Seq<char> {
    let r = resolve_type(rules, t);
    match r {
        TypeExpr::Group(g) => field_lines(c, indent, g.entries@),
        TypeExpr::Tuple(g) => field_lines(c, indent, g.entries@),
        _ => styled_line(c, indent, Style::Green, render_type(r)),
    }
}

fn write_fields(out: &mut String, c: bool, indent: &str, g: &Group)
    ensures
        final(out)@ == old(out)@ + field_lines(c, indent@, g.entries@),
{
    let ghost start = out@;
    let mut i: usize = 0;
    while i < g.entries.len()
        invariant
            i <= g.entries.len(),
            out@ == start + field_lines(c, indent@, g.entries@.take(i as int)),
        decreases g.entries.len() - i,
    {
        let e = &g.entries[i];
        let mut label = String::new();
        write_entry_name(&mut label, e);
        match e.occurrence {
            Some(Occurrence::Optional) => push_char(&mut label, '?'),
            _ => {},
        }
        let typ = render_type_string(&e.value_type);
        let line = field_line(c, indent, label.as_str(), typ.as_str());
        out.append(line.as_str());
        proof {
            let tk = g.entries@.take(i + 1);
            assert(tk.drop_last() =~= g.entries@.take(i as int));
            assert(label@ == field_label(*e));
        }
        i = i + 1;
    }
    assert(g.entries@.take(g.entries.len() as int) =~= g.entries@);
}

fn write_contents(out: &mut String, f: &File, c: bool, indent: &str, t: &TypeExpr)
    ensures
        final(out)@ == old(out)@ + contents(f.rules(), c, indent@, *t),
{
    let r = resolve(t, f);
    match r {
        TypeExpr::Group(g) => write_fields(out, c, indent, g),
        TypeExpr::Tuple(g) => write_fields(out, c, indent, g),
        _ => {
            let s = render_type_string(r);
            write_styled_line(out, c, indent, Style::Green, s.as_str());
        },
    }
}

/// For each arm of a choice that is not a literal: its own line, then what
/// it holds, two spaces deeper.
pub open spec fn arm_blocks(rules: Seq<Rule>, c: bool, indent: Seq<char>, arms: Seq<TypeExpr>) -> Seq<char>
    decreases arms.len(),
{
    if arms.len() == 0 {
        Seq::empty()
    } else {
        let a = arms.last();
        arm_blocks(rules, c, indent, arms.drop_last()) + if a is Literal {
            Seq::empty()
        } else {
            styled_line(c, indent, Style::Green, render_type(a)) + contents(rules, c, deeper(indent), a)
        }
    }
}

/// A type in full, at `indent`: a union (after resolving) shows its arms
/// joined, then each arm that is not a literal with what it holds; any other
/// type shows what it holds.
pub open spec fn expanded(rules: Seq<Rule>, c: bool, indent: Seq<char>, t: TypeExpr) -> Seq<char> {
    let r = resolve_type(rules, t);
    match r {
        TypeExpr::Choice(arms) => styled_line(c, indent, Style::Green, render_type(r)) + arm_blocks(
            rules,
            c,
            indent,
            arms@,
        ),
        _ => contents(rules, c, indent, t),
    }
}

fn write_expanded(out: &mut String, f: &File, c: bool, indent: &str, t: &TypeExpr)
    ensures
        final(out)@ == old(out)@ + expanded(f.rules(), c, indent@, *t),
{
    let r = resolve(t, f);
    match r {
        TypeExpr::Choice(arms) => {
            let s = render_type_string(r);
            write_styled_line(out, c, indent, Style::Green, s.as_str());
            let ghost mid = out@;
            let deep = deeper_exec(indent);
            let mut i: usize = 0;
            while i < arms.len()
                invariant
                    i <= arms.len(),
                    deep@ == deeper(indent@),
                    out@ == mid + arm_blocks(f.rules(), c, indent@, arms@.take(i as int)),
                decreases arms.len() - i,
            {
                let a = &arms[i];
                match a {
                    TypeExpr::Literal(_) => {},
                    _ => {
                        let s = render_type_string(a);
                        write_styled_line(out, c, indent, Style::Green, s.as_str());
                        write_contents(out, f, c, deep.as_str(), a);
                    },
                }
                proof {
                    let tk = arms@.take(i + 1);
                    assert(tk.drop_last() =~= arms@.take(i as int));
                }
                i = i + 1;
            }
            assert(arms@.take(arms.len() as int) =~= arms@);
        },
        _ => write_contents(out, f, c, indent, t),
    }
}

/// The declared request or response type of an operation, at `indent`: a
/// named type shows its name, then what it holds two spaces deeper; an
/// unnamed union shows in full; anything else shows what it holds.
pub open spec fn describe(rules: Seq<Rule>, c: bool, indent: Seq<char>, t: TypeExpr) -> Seq<char> {
    match t {
        TypeExpr::Reference(n) => styled_line(c, indent, Style::Green, n@) + contents(
            rules,
            c,
            deeper(indent),
            t,
        ),
        TypeExpr::Choice(_) => expanded(rules, c, indent, t),
        _ => contents(rules, c, indent, t),
    }
}

fn write_describe(out: &mut String, f: &File, c: bool, indent: &str, t: &TypeExpr)
    ensures
        final(out)@ == old(out)@ + describe(f.rules(), c, indent@, *t),
{
    match t {
        TypeExpr::Reference(n) => {
            write_styled_line(out, c, indent, Style::Green, n.as_str());
            let deep = deeper_exec(indent);
            write_contents(out, f, c, deep.as_str(), t);
        },
        TypeExpr::Choice(_) => write_expanded(out, f, c, indent, t),
        _ => write_contents(out, f, c, indent, t),
    }
}

/// A reference to the type named `name`.
pub open spec fn named_ref(name: Seq<char>) -> TypeExpr {
    TypeExpr::Reference(choose|x: String| x@ == name)
}

/// What a reference resolves to, and so how it is listed, depends on its
/// name's text alone.
proof fn lemma_reference_text_only(rules: Seq<Rule>, c: bool, indent: Seq<char>, x1: String, x2: String)
    requires
        x1@ == x2@,
    ensures
        expanded(rules, c, indent, TypeExpr::Reference(x1)) == expanded(
            rules,
            c,
            indent,
            TypeExpr::Reference(x2),
        ),
{
    let t1 = TypeExpr::Reference(x1);
    let t2 = TypeExpr::Reference(x2);
    let e: Seq<Seq<char>> = Seq::empty();
    assert(!e.contains(x1@));
    match find_definition(rules, x1@) {
        Some(i) => {
            if rules.len() > 0 {
                assert(resolve_type(rules, t1) == resolve_type(rules, t2));
            }
        },
        None => {},
    }
}

/// A type's listing: its name in bold, then the type in full, two spaces in.
#[verifier::opaque]
pub open spec fn print_type(rules: Seq<Rule>, c: bool, name: Seq<char>) -> Seq<char> {
    styled(c, Style::Bold, name) + seq!['\n'] + expanded(rules, c, seq![' ', ' '], named_ref(name))
}

fn write_print_type(out: &mut String, f: &File, c: bool, name: &str)
    ensures
        final(out)@ == old(out)@ + print_type(f.rules(), c, name@),
{
    let ghost start = out@;
    write_styled(out, c, Style::Bold, name);
    push_char(out, '\n');
    let ghost mid = out@;
    let t = TypeExpr::Reference(String::from_str(name));
    let ind = "  ";
    proof {
        reveal_strlit("  ");
        assert(ind@ =~= seq![' ', ' ']);
    }
    write_expanded(out, f, c, ind, &t);
    proof {
        reveal(print_type);
        reveal_strlit("  ");
        let w = t->Reference_0;
        assert(w@ == name@);
        let x = choose|x: String| x@ == name@;
        lemma_reference_text_only(f.rules(), c, seq![' ', ' '], t->Reference_0, x);
        assert(out@ == mid + expanded(f.rules(), c, seq![' ', ' '], t));
        assert(named_ref(name@) == TypeExpr::Reference(x));
        assert(t == TypeExpr::Reference(t->Reference_0));
        assert(out@ =~= start + print_type(f.rules(), c, name@));
    }
}


/// An operation's name, with its direction arrow in parentheses unless the
/// arrow is the plain `->`.
pub open spec fn op_label(op: ServiceOp) -> Seq<char> {
    match op.direction {
        Direction::Unidirectional => op.name@,
        Direction::Bidirectional => op.name@ + seq![' ', '(', '<', '-', '>', ')'],
        Direction::Reverse => op.name@ + seq![' ', '(', '<', '-', ')'],
    }
}

/// A push-only operation: it declares no input (`null`) and its arrow is
/// `->` or `<-`.
pub open spec fn is_push_only(op: ServiceOp) -> bool {
    &&& op.input_type is Builtin
    &&& op.input_type->Builtin_0@ == seq!['n', 'u', 'l', 'l']
    &&& (op.direction == Direction::Unidirectional || op.direction == Direction::Reverse)
}

pub open spec fn request_word() -> Seq<char> {
    seq!['r', 'e', 'q', 'u', 'e', 's', 't']
}

pub open spec fn response_word() -> Seq<char> {
    seq!['r', 'e', 's', 'p', 'o', 'n', 's', 'e']
}

/// An operation's listing: its label, then (unless it is push-only) its
/// request type, then its response type, each described in full.
#[verifier::opaque]
pub open spec fn print_operation(rules: Seq<Rule>, c: bool, op: ServiceOp) -> Seq<char> {
    styled_line(c, seq![' ', ' '], Style::Cyan, op_label(op)) + (if is_push_only(op) {
        Seq::empty()
    } else {
        styled_line(c, seq![' ', ' ', ' ', ' '], Style::Bold, request_word()) + describe(
            rules,
            c,
            seq![' ', ' ', ' ', ' ', ' ', ' '],
            op.input_type,
        )
    }) + styled_line(c, seq![' ', ' ', ' ', ' '], Style::Bold, response_word()) + describe(
        rules,
        c,
        seq![' ', ' ', ' ', ' ', ' ', ' '],
        op.output_type,
    )
}

pub fn builtin_is_null(t: &TypeExpr) -> (r: bool)
    ensures
        r == (*t is Builtin && t->Builtin_0@ == seq!['n', 'u', 'l', 'l']),
{
    match t {
        TypeExpr::Builtin(b) => {
            let r = str_eq(b.as_str(), "null");
            proof {
                reveal_strlit("null");
                assert("null"@ =~= seq!['n', 'u', 'l', 'l']);
            }
            r
        },
        _ => false,
    }
}

/// Whether an operation is push-only (see `is_push_only`).
pub fn push_only(op: &ServiceOp) -> (r: bool)
    ensures
        r == is_push_only(*op),
{
    builtin_is_null(&op.input_type) && match op.direction {
        Direction::Unidirectional => true,
        Direction::Reverse => true,
        Direction::Bidirectional => false,
    }
}

fn write_print_operation(out: &mut String, f: &File, c: bool, op: &ServiceOp)
    ensures
        final(out)@ == old(out)@ + print_operation(f.rules(), c, *op),
{
    let ghost start = out@;
    let mut label = String::from_str(op.name.as_str());
    match op.direction {
        Direction::Unidirectional => {},
        Direction::Bidirectional => {
            label.append(" (<->)");
            proof {
                reveal_strlit(" (<->)");
            }
        },
        Direction::Reverse => {
            label.append(" (<-)");
            proof {
                reveal_strlit(" (<-)");
            }
        },
    }
    proof {
        reveal_strlit("  ");
        reveal_strlit("    ");
        reveal_strlit("      ");
        reveal_strlit("request");
        reveal_strlit("response");
    }
    write_styled_line(out, c, "  ", Style::Cyan, label.as_str());
    let ghost a = out@;
    if !push_only(op) {
        write_styled_line(out, c, "    ", Style::Bold, "request");
        write_describe(out, f, c, "      ", &op.input_type);
    }
    let ghost b = out@;
    write_styled_line(out, c, "    ", Style::Bold, "response");
    write_describe(out, f, c, "      ", &op.output_type);
    proof {
        assert("  "@ =~= seq![' ', ' ']);
        assert("    "@ =~= seq![' ', ' ', ' ', ' ']);
        assert("      "@ =~= seq![' ', ' ', ' ', ' ', ' ', ' ']);
        assert("request"@ =~= request_word());
        assert("response"@ =~= response_word());
        reveal(print_operation);
        assert(label@ == op_label(*op));
        assert(out@ =~= start + print_operation(f.rules(), c, *op));
    }
}

/// One cyan line per operation name, four spaces in.
pub open spec fn op_name_lines(c: bool, ops: Seq<ServiceOp>) -> Seq<char>
    decreases ops.len(),
{
    if ops.len() == 0 {
        Seq::empty()
    } else {
        op_name_lines(c, ops.drop_last()) + styled_line(
            c,
            seq![' ', ' ', ' ', ' '],
            Style::Cyan,
            ops.last().name@,
        )
    }
}

/// For each service among the first `n` rules: its name in bold, two
/// spaces in, then its operation names.
pub open spec fn service_names_block(rules: Seq<Rule>, c: bool, n: int) -> Seq<char>
    decreases n,
{
    if n <= 0 {
        Seq::empty()
    } else {
        service_names_block(rules, c, n - 1) + match rules[n - 1].kind {
            RuleKind::Service(ops) => styled_line(c, seq![' ', ' '], Style::Bold, rules[n - 1].name@)
                + op_name_lines(c, ops@),
            _ => Seq::empty(),
        }
    }
}

/// For each service among the first `n` rules: its name in bold, then each
/// operation's listing followed by a blank line.
pub open spec fn service_detail_block(rules: Seq<Rule>, c: bool, n: int) -> Seq<char>
    decreases n,
{
    if n <= 0 {
        Seq::empty()
    } else {
        service_detail_block(rules, c, n - 1) + match rules[n - 1].kind {
            RuleKind::Service(ops) => styled_line(c, Seq::empty(), Style::Bold, rules[n - 1].name@)
                + operation_blocks(rules, c, ops@),
            _ => Seq::empty(),
        }
    }
}

/// Each operation's listing followed by a blank line.
pub open spec fn operation_blocks(rules: Seq<Rule>, c: bool, ops: Seq<ServiceOp>) -> Seq<char>
    decreases ops.len(),
{
    if ops.len() == 0 {
        Seq::empty()
    } else {
        operation_blocks(rules, c, ops.drop_last()) + print_operation(rules, c, ops.last()) + seq!['\n']
    }
}

/// Whether any of the first `n` rules is a service.
pub open spec fn has_service(rules: Seq<Rule>, n: int) -> bool
    decreases n,
{
    if n <= 0 {
        false
    } else {
        rules[n - 1].kind is Service || has_service(rules, n - 1)
    }
}

/// One green line per name, two spaces in.
pub open spec fn type_name_lines(c: bool, names: Seq<Seq<char>>) -> Seq<char>
    decreases names.len(),
{
    if names.len() == 0 {
        Seq::empty()
    } else {
        type_name_lines(c, names.drop_last()) + styled_line(c, seq![' ', ' '], Style::Green, names.last())
    }
}

/// Each named type's listing followed by a blank line.
pub open spec fn type_blocks(rules: Seq<Rule>, c: bool, names: Seq<Seq<char>>) -> Seq<char>
    decreases names.len(),
{
    if names.len() == 0 {
        Seq::empty()
    } else {
        type_blocks(rules, c, names.drop_last()) + print_type(rules, c, names.last()) + seq!['\n']
    }
}

pub open spec fn services_word() -> Seq<char> {
    seq!['S', 'e', 'r', 'v', 'i', 'c', 'e', 's', ':']
}

pub open spec fn types_word() -> Seq<char> {
    seq!['T', 'y', 'p', 'e', 's', ':']
}

/// The basic listing: when the file has services, a `Services:` heading,
/// each service with its operation names, and a blank line; then a
/// `Types:` heading and the name of every definition, in source order.
pub open spec fn basic_listing(rules: Seq<Rule>, c: bool) -> Seq<char> {
    (if has_service(rules, rules.len() as int) {
        styled_line(c, Seq::empty(), Style::Bold, services_word()) + service_names_block(
            rules,
            c,
            rules.len() as int,
        ) + seq!['\n']
    } else {
        Seq::empty()
    }) + styled_line(c, Seq::empty(), Style::Bold, types_word()) + type_name_lines(
        c,
        definition_names(rules, rules.len() as int),
    )
}

/// The verbose listing: when the file has services, each service with every
/// operation in full, and a blank line; then a `Types:` heading and every
/// definition in full, each followed by a blank line.
pub open spec fn verbose_listing(rules: Seq<Rule>, c: bool) -> Seq<char> {
    (if has_service(rules, rules.len() as int) {
        service_detail_block(rules, c, rules.len() as int) + seq!['\n']
    } else {
        Seq::empty()
    }) + styled_line(c, Seq::empty(), Style::Bold, types_word()) + type_blocks(
        rules,
        c,
        definition_names(rules, rules.len() as int),
    )
}

fn file_has_service(f: &File) -> (r: bool)
    ensures
        r == has_service(f.rules(), f.rules().len() as int),
{
    let n = f.rule_count();
    let mut i: usize = 0;
    while i < n
        invariant
            i <= n,
            n == f.rules().len(),
            !has_service(f.rules(), i as int),
        decreases n - i,
    {
        match &f.rule(i).kind {
            RuleKind::Service(_) => {
                proof {
                    lemma_has_service_mono(f.rules(), i as int + 1, n as int);
                }
                return true;
            },
            _ => {},
        }
        i = i + 1;
    }
    false
}

proof fn lemma_has_service_mono(rules: Seq<Rule>, m: int, n: int)
    requires
        m <= n,
        has_service(rules, m),
    ensures
        has_service(rules, n),
    decreases n - m,
{
    if m < n {
        lemma_has_service_mono(rules, m, n - 1);
    }
}

fn write_heading(out: &mut String, c: bool, word: &str)
    ensures
        final(out)@ == old(out)@ + styled_line(c, Seq::empty(), Style::Bold, word@),
{
    let empty = "";
    proof {
        reveal_strlit("");
    }
    write_styled_line(out, c, empty, Style::Bold, word);
    assert(empty@ =~= Seq::<char>::empty());
}

fn write_service_names(out: &mut String, f: &File, c: bool)
    ensures
        final(out)@ == old(out)@ + service_names_block(f.rules(), c, f.rules().len() as int),
{
    let ghost rules = f.rules();
    let ghost mid = out@;
    proof {
        reveal_strlit("  ");
        reveal_strlit("    ");
        assert("  "@ =~= seq![' ', ' ']);
        assert("    "@ =~= seq![' ', ' ', ' ', ' ']);
    }
    let n = f.rule_count();
    let mut i: usize = 0;
    while i < n
        invariant
            i <= n,
            n == rules.len(),
            rules == f.rules(),
            "  "@ =~= seq![' ', ' '],
            "    "@ =~= seq![' ', ' ', ' ', ' '],
            out@ == mid + service_names_block(rules, c, i as int),
        decreases n - i,
    {
        let rule = f.rule(i);
        match &rule.kind {
            RuleKind::Service(ops) => {
                write_styled_line(out, c, "  ", Style::Bold, rule.name.as_str());
                let ghost m2 = out@;
                let mut j: usize = 0;
                while j < ops.len()
                    invariant
                        j <= ops.len(),
                        "    "@ =~= seq![' ', ' ', ' ', ' '],
                        out@ == m2 + op_name_lines(c, ops@.take(j as int)),
                    decreases ops.len() - j,
                {
                    write_styled_line(out, c, "    ", Style::Cyan, ops[j].name.as_str());
                    proof {
                        let tk = ops@.take(j + 1);
                        assert(tk.drop_last() =~= ops@.take(j as int));
                    }
                    j = j + 1;
                }
                assert(ops@.take(ops.len() as int) =~= ops@);
            },
            _ => {},
        }
        i = i + 1;
    }
}

fn write_type_names(out: &mut String, f: &File, c: bool)
    requires
        f.wf(),
    ensures
        final(out)@ == old(out)@ + type_name_lines(c, f.names()),
{
    let ghost m3 = out@;
    proof {
        reveal_strlit("  ");
        assert("  "@ =~= seq![' ', ' ']);
    }
    let order = f.definition_order();
    let mut k: usize = 0;
    while k < order.len()
        invariant
            k <= order.len(),
            "  "@ =~= seq![' ', ' '],
            order@.len() == f.names().len(),
            forall|i: int| 0 <= i < order@.len() ==> #[trigger] order@[i]@ == f.names()[i],
            out@ == m3 + type_name_lines(c, f.names().take(k as int)),
        decreases order.len() - k,
    {
        write_styled_line(out, c, "  ", Style::Green, order[k].as_str());
        proof {
            let tk = f.names().take(k + 1);
            assert(tk.drop_last() =~= f.names().take(k as int));
        }
        k = k + 1;
    }
    assert(f.names().take(order.len() as int) =~= f.names());
}

fn write_basic_listing(out: &mut String, f: &File, c: bool)
    requires
        f.wf(),
    ensures
        final(out)@ == old(out)@ + basic_listing(f.rules(), c),
{
    let ghost start = out@;
    proof {
        reveal_strlit("Services:");
        reveal_strlit("Types:");
        assert("Services:"@ =~= services_word());
        assert("Types:"@ =~= types_word());
    }
    let has = file_has_service(f);
    if has {
        write_heading(out, c, "Services:");
        write_service_names(out, f, c);
        push_char(out, '\n');
    }
    let ghost mid = out@;
    write_heading(out, c, "Types:");
    write_type_names(out, f, c);
    proof {
        let head = if has {
            styled_line(c, Seq::empty(), Style::Bold, services_word()) + service_names_block(
                f.rules(),
                c,
                f.rules().len() as int,
            ) + seq!['\n']
        } else {
            Seq::empty()
        };
        assert(mid =~= start + head);
        assert(out@ =~= start + basic_listing(f.rules(), c));
    }
}


fn write_service_details(out: &mut String, f: &File, c: bool)
    ensures
        final(out)@ == old(out)@ + service_detail_block(f.rules(), c, f.rules().len() as int),
{
    let ghost rules = f.rules();
    let ghost mid = out@;
    let n = f.rule_count();
    let mut i: usize = 0;
    while i < n
        invariant
            i <= n,
            n == rules.len(),
            rules == f.rules(),
            out@ == mid + service_detail_block(rules, c, i as int),
        decreases n - i,
    {
        let rule = f.rule(i);
        match &rule.kind {
            RuleKind::Service(ops) => {
                write_heading(out, c, rule.name.as_str());
                let ghost m2 = out@;
                let mut j: usize = 0;
                while j < ops.len()
                    invariant
                        j <= ops.len(),
                        rules == f.rules(),
                        out@ == m2 + operation_blocks(rules, c, ops@.take(j as int)),
                    decreases ops.len() - j,
                {
                    write_print_operation(out, f, c, &ops[j]);
                    push_char(out, '\n');
                    proof {
                        let tk = ops@.take(j + 1);
                        assert(tk.drop_last() =~= ops@.take(j as int));
                    }
                    j = j + 1;
                }
                assert(ops@.take(ops.len() as int) =~= ops@);
            },
            _ => {},
        }
        i = i + 1;
    }
}

fn write_type_blocks(out: &mut String, f: &File, c: bool)
    requires
        f.wf(),
    ensures
        final(out)@ == old(out)@ + type_blocks(f.rules(), c, f.names()),
{
    let ghost m3 = out@;
    let order = f.definition_order();
    let mut k: usize = 0;
    while k < order.len()
        invariant
            k <= order.len(),
            order@.len() == f.names().len(),
            forall|i: int| 0 <= i < order@.len() ==> #[trigger] order@[i]@ == f.names()[i],
            out@ == m3 + type_blocks(f.rules(), c, f.names().take(k as int)),
        decreases order.len() - k,
    {
        write_print_type(out, f, c, order[k].as_str());
        push_char(out, '\n');
        proof {
            let tk = f.names().take(k + 1);
            assert(tk.drop_last() =~= f.names().take(k as int));
        }
        k = k + 1;
    }
    assert(f.names().take(order.len() as int) =~= f.names());
}

fn write_verbose_listing(out: &mut String, f: &File, c: bool)
    requires
        f.wf(),
    ensures
        final(out)@ == old(out)@ + verbose_listing(f.rules(), c),
{
    let ghost start = out@;
    proof {
        reveal_strlit("Types:");
        assert("Types:"@ =~= types_word());
    }
    let has = file_has_service(f);
    if has {
        write_service_details(out, f, c);
        push_char(out, '\n');
    }
    let ghost mid = out@;
    write_heading(out, c, "Types:");
    write_type_blocks(out, f, c);
    proof {
        let head = if has {
            service_detail_block(f.rules(), c, f.rules().len() as int) + seq!['\n']
        } else {
            Seq::empty()
        };
        assert(mid =~= start + head);
        assert(out@ =~= start + verbose_listing(f.rules(), c));
    }
}

/// Why a listing could not be made.
#[derive(Debug)]
pub enum ListError {
    /// The item asked for names neither an operation nor a type of the file.
    UnknownItem { item: String, path: String },
}

/// The message of an unknown-item error.
pub open spec fn unknown_item_message(item: Seq<char>, path: Seq<char>) -> Seq<char> {
    seq!['l', 'i', 's', 't', ':', ' '] + seq![
        'n', 'o', ' ', 'm', 'e', 't', 'h', 'o', 'd', ' ', 'o', 'r', ' ', 't', 'y', 'p', 'e', ' ',
        'n', 'a', 'm', 'e', 'd', ' ', '"',
    ] + item + seq!['"', ' ', 'f', 'o', 'u', 'n', 'd', ' ', 'i', 'n', ' '] + path
}

impl ListError {
    /// The error's message, as the command prints it.
    pub fn message(&self) -> (r: String)
        ensures
            match self {
                ListError::UnknownItem { item, path } => r@ == unknown_item_message(item@, path@),
            },
    {
        match self {
            ListError::UnknownItem { item, path } => {
                let mut r = String::from_str("list: no method or type named \"");
                r.append(item.as_str());
                r.append("\" found in ");
                r.append(path.as_str());
                proof {
                    reveal_strlit("list: no method or type named \"");
                    reveal_strlit("\" found in ");
                    assert(r@ =~= unknown_item_message(item@, path@));
                }
                r
            },
        }
    }
}

/// The listing of a parsed `.csil` file (read from `path`), or the item
/// and path of an unknown-item error.
///
/// With an item: the operation of that name under its service's name, else
/// the type of that name in full, else an error naming the item; `verbose`
/// plays no part. Without one: the verbose listing when `verbose`, else the
/// basic one. `c` turns styling on.
pub open spec fn listing(rules: Seq<Rule>, path: Seq<char>, item: Option<Seq<char>>, verbose: bool, c: bool) -> Result<Seq<char>, (Seq<char>, Seq<char>)> {
    match item {
        Some(it) => match find_operation_from(rules, it, 0) {
            Some((k, j)) => Ok(
                styled(c, Style::Bold, rules[k].name@) + seq!['\n'] + print_operation(
                    rules,
                    c,
                    rules[k].kind->Service_0@[j],
                ),
            ),
            None => match find_definition(rules, it) {
                Some(_) => Ok(print_type(rules, c, it)),
                None => Err((it, path)),
            },
        },
        None => Ok(
            if verbose {
                verbose_listing(rules, c)
            } else {
                basic_listing(rules, c)
            },
        ),
    }
}

pub open spec fn list_result_view(r: Result<String, ListError>) -> Result<Seq<char>, (Seq<char>, Seq<char>)> {
    match r {
        Ok(s) => Ok(s@),
        Err(ListError::UnknownItem { item, path }) => Err((item@, path@)),
    }
}

/// An item's listing does not depend on `verbose`.
pub proof fn law_verbose_ignored_with_item(rules: Seq<Rule>, path: Seq<char>, item: Seq<char>, c: bool)
    ensures
        listing(rules, path, Some(item), true, c) == listing(rules, path, Some(item), false, c),
{
}

/// The listing of a parsed `.csil` file (read from `csil_path`); see
/// `listing`. Every definition is listed under `Types:`, the request and
/// response messages of operations included (so the basic listing names
/// `CreateRequest` too); a response's error arm is shown within the
/// response type (`CreateResponse / ErrorType`), with no separate error
/// section; and the arms of a union that are not literals are expanded
/// too.
pub fn run_list(f: &File, csil_path: &str, item: Option<&str>, verbose: bool, c: bool) -> (r: Result<String, ListError>)
    requires
        f.wf(),
    ensures
        list_result_view(r) == listing(
            f.rules(),
            csil_path@,
            match item {
                Some(it) => Some(it@),
                None => None,
            },
            verbose,
            c,
        ),
{
    let mut out = String::new();
    match item {
        Some(it) => {
            match f.find_operation(it) {
                Some((svc, op)) => {
                    write_styled(&mut out, c, Style::Bold, svc);
                    push_char(&mut out, '\n');
                    write_print_operation(&mut out, f, c, op);
                    proof {
                        let (k, j) = find_operation_from(f.rules(), it@, 0)->0;
                        assert(out@ =~= styled(c, Style::Bold, f.rules()[k].name@) + seq!['\n'] + print_operation(
                            f.rules(),
                            c,
                            f.rules()[k].kind->Service_0@[j],
                        ));
                    }
                    return Ok(out);
                },
                None => {},
            }
            match f.find_definition(it) {
                Some(_) => {
                    write_print_type(&mut out, f, c, it);
                    Ok(out)
                },
                None => Err(ListError::UnknownItem { item: String::from_str(it), path: String::from_str(csil_path) }),
            }
        },
        None => {
            if verbose {
                write_verbose_listing(&mut out, f, c);
            } else {
                write_basic_listing(&mut out, f, c);
            }
            Ok(out)
        },
    }
}

} // verus!
