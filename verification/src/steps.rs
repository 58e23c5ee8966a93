//! Encoding without a bound on its steps. `encode` counts its nested steps;
//! given more steps, a run that finished gives the same result, so the
//! result of a run that finishes at all is `encodes`, which no step count
//! appears in. A run that never finishes is the one that only leads back to
//! where it was without consuming input.
use vstd::prelude::*;
use crate::csil::{Rule, TypeExpr, GroupEntry, ControlOp};
use crate::payload::{
    EncodeErrorV, encode, encode_group, encode_fields, encode_members, encode_items, first_ok,
    encode_choice, encode_constrained, check_all, check, hinted_arm, last_catch_all, field_names,
    is_catch_all, member_get,
};
use crate::list::{resolve_type, entry_name};
use crate::value::{JsonV, CborV};

verus! {

/// Whether a result is the one given when the steps ran out.
pub open spec fn ran_out<T>(r: Result<T, EncodeErrorV>) -> bool {
    r matches Err(EncodeErrorV::TooDeep)
}

/// Whether a constraint check ran out of steps.
pub open spec fn check_ran_out(r: Option<EncodeErrorV>) -> bool {
    r matches Some(EncodeErrorV::TooDeep)
}

proof fn lemma_encode_steps(rules: Seq<Rule>, j: JsonV, t: TypeExpr, f1: nat, f2: nat)
    requires
        f1 <= f2,
        !ran_out(encode(rules, j, t, f1)),
    ensures
        encode(rules, j, t, f2) == encode(rules, j, t, f1),
    decreases f1, 0nat, 0nat,
{
    let g1 = (f1 - 1) as nat;
    let g2 = (f2 - 1) as nat;
    match resolve_type(rules, t) {
        TypeExpr::Group(g) => lemma_group_steps(rules, j, g.entries@, g1, g2),
        TypeExpr::Tuple(g) => lemma_group_steps(rules, j, g.entries@, g1, g2),
        TypeExpr::Array { element_type, .. } => match j {
            JsonV::Array(items) => lemma_items_steps(rules, items, *element_type, g1, g2),
            _ => {},
        },
        TypeExpr::MapType { key, value } => match j {
            JsonV::Object(ms) => lemma_members_steps(rules, ms, Seq::empty(), *key, *value, g1, g2),
            _ => {},
        },
        TypeExpr::Choice(arms) => lemma_choice_steps(rules, j, arms@, g1, g2),
        TypeExpr::Constrained { base_type, constraints } => lemma_constrained_steps(
            rules,
            j,
            *base_type,
            constraints@,
            g1,
            g2,
        ),
        _ => {},
    }
}

proof fn lemma_group_steps(rules: Seq<Rule>, j: JsonV, es: Seq<GroupEntry>, f1: nat, f2: nat)
    requires
        f1 <= f2,
        !ran_out(encode_group(rules, j, es, f1)),
    ensures
        encode_group(rules, j, es, f2) == encode_group(rules, j, es, f1),
    decreases f1, 2nat, 0nat,
{
    match j {
        JsonV::Object(ms) => {
            lemma_fields_steps(rules, ms, es, f1, f2);
            if encode_fields(rules, ms, es, f1) is Ok {
                match last_catch_all(es) {
                    Some(i) => lemma_members_steps(
                        rules,
                        ms,
                        field_names(es),
                        es[i].key->Some_0->Type_0,
                        es[i].value_type,
                        f1,
                        f2,
                    ),
                    None => {},
                }
            }
        },
        _ => {},
    }
}

proof fn lemma_fields_steps(rules: Seq<Rule>, ms: Seq<(Seq<char>, JsonV)>, es: Seq<GroupEntry>, f1: nat, f2: nat)
    requires
        f1 <= f2,
        !ran_out(encode_fields(rules, ms, es, f1)),
    ensures
        encode_fields(rules, ms, es, f2) == encode_fields(rules, ms, es, f1),
    decreases f1, 1nat, es.len(),
{
    if es.len() > 0 {
        lemma_fields_steps(rules, ms, es.drop_last(), f1, f2);
        if encode_fields(rules, ms, es.drop_last(), f1) is Ok {
            let e = es.last();
            if !is_catch_all(e) {
                match member_get(ms, entry_name(e)) {
                    Some(v) => lemma_encode_steps(rules, v, e.value_type, f1, f2),
                    None => {},
                }
            }
        }
    }
}

proof fn lemma_members_steps(
    rules: Seq<Rule>,
    ms: Seq<(Seq<char>, JsonV)>,
    skip: Seq<Seq<char>>,
    kt: TypeExpr,
    vt: TypeExpr,
    f1: nat,
    f2: nat,
)
    requires
        f1 <= f2,
        !ran_out(encode_members(rules, ms, skip, kt, vt, f1)),
    ensures
        encode_members(rules, ms, skip, kt, vt, f2) == encode_members(rules, ms, skip, kt, vt, f1),
    decreases f1, 1nat, ms.len(),
{
    if ms.len() > 0 {
        lemma_members_steps(rules, ms.drop_last(), skip, kt, vt, f1, f2);
        if encode_members(rules, ms.drop_last(), skip, kt, vt, f1) is Ok {
            let (k, v) = ms.last();
            if !skip.contains(k) {
                lemma_encode_steps(rules, JsonV::Str(k), kt, f1, f2);
                if encode(rules, JsonV::Str(k), kt, f1) is Ok {
                    lemma_encode_steps(rules, v, vt, f1, f2);
                }
            }
        }
    }
}

proof fn lemma_items_steps(rules: Seq<Rule>, items: Seq<JsonV>, et: TypeExpr, f1: nat, f2: nat)
    requires
        f1 <= f2,
        !ran_out(encode_items(rules, items, et, f1)),
    ensures
        encode_items(rules, items, et, f2) == encode_items(rules, items, et, f1),
    decreases f1, 1nat, items.len(),
{
    if items.len() > 0 {
        lemma_items_steps(rules, items.drop_last(), et, f1, f2);
        if encode_items(rules, items.drop_last(), et, f1) is Ok {
            lemma_encode_steps(rules, items.last(), et, f1, f2);
        }
    }
}

proof fn lemma_first_ok_steps(rules: Seq<Rule>, j: JsonV, arms: Seq<TypeExpr>, f1: nat, f2: nat)
    requires
        f1 <= f2,
        !ran_out(first_ok(rules, j, arms, f1)),
    ensures
        first_ok(rules, j, arms, f2) == first_ok(rules, j, arms, f1),
    decreases f1, 1nat, arms.len(),
{
    if arms.len() > 0 {
        lemma_first_ok_steps(rules, j, arms.drop_last(), f1, f2);
        if first_ok(rules, j, arms.drop_last(), f1) matches Err(EncodeErrorV::NoMatchingArm) {
            lemma_encode_steps(rules, j, arms.last(), f1, f2);
        }
    }
}

proof fn lemma_choice_steps(rules: Seq<Rule>, j: JsonV, arms: Seq<TypeExpr>, f1: nat, f2: nat)
    requires
        f1 <= f2,
        !ran_out(encode_choice(rules, j, arms, f1)),
    ensures
        encode_choice(rules, j, arms, f2) == encode_choice(rules, j, arms, f1),
    decreases f1, 2nat, 0nat,
{
    match hinted_arm(j, arms) {
        Some(i) => lemma_encode_steps(rules, j, arms[i], f1, f2),
        None => lemma_first_ok_steps(rules, j, arms, f1, f2),
    }
}

proof fn lemma_constrained_steps(rules: Seq<Rule>, j: JsonV, base: TypeExpr, cs: Seq<ControlOp>, f1: nat, f2: nat)
    requires
        f1 <= f2,
        !ran_out(encode_constrained(rules, j, base, cs, f1)),
    ensures
        encode_constrained(rules, j, base, cs, f2) == encode_constrained(rules, j, base, cs, f1),
    decreases f1, 2nat, 0nat,
{
    lemma_encode_steps(rules, j, base, f1, f2);
    match encode(rules, j, base, f1) {
        Ok(v) => lemma_check_all_steps(rules, v, cs, j, f1, f2),
        Err(_) => {},
    }
}

proof fn lemma_check_all_steps(rules: Seq<Rule>, v: CborV, cs: Seq<ControlOp>, j: JsonV, f1: nat, f2: nat)
    requires
        f1 <= f2,
        !check_ran_out(check_all(rules, v, cs, j, f1)),
    ensures
        check_all(rules, v, cs, j, f2) == check_all(rules, v, cs, j, f1),
    decreases f1, 1nat, cs.len(),
{
    if cs.len() > 0 {
        lemma_check_all_steps(rules, v, cs.drop_last(), j, f1, f2);
        if check_all(rules, v, cs.drop_last(), j, f1) is None {
            lemma_check_steps(rules, v, cs.last(), j, f1, f2);
        }
    }
}

proof fn lemma_check_steps(rules: Seq<Rule>, v: CborV, c: ControlOp, j: JsonV, f1: nat, f2: nat)
    requires
        f1 <= f2,
        !check_ran_out(check(rules, v, c, j, f1)),
    ensures
        check(rules, v, c, j, f2) == check(rules, v, c, j, f1),
    decreases f1, 1nat, 0nat,
{
    match c {
        ControlOp::And(t) => lemma_encode_steps(rules, j, t, f1, f2),
        ControlOp::Within(t) => lemma_encode_steps(rules, j, t, f1, f2),
        _ => {},
    }
}

/// JSON `j` encoded against `t`, with no bound on the steps: the result of
/// any run that finishes (they all agree), or `TooDeep` where no run
/// finishes.
pub open spec fn encodes(rules: Seq<Rule>, j: JsonV, t: TypeExpr) -> Result<CborV, EncodeErrorV> {
    if exists|f: nat| !ran_out(#[trigger] encode(rules, j, t, f)) {
        encode(rules, j, t, choose|f: nat| !ran_out(#[trigger] encode(rules, j, t, f)))
    } else {
        Err(EncodeErrorV::TooDeep)
    }
}

/// One constraint checked on `v` (the encoding of `j`) with no bound on the
/// steps: `.and` and `.within` encode `j` afresh against their type; the
/// other controls encode nothing, so they take no steps.
pub open spec fn check_u(rules: Seq<Rule>, v: CborV, c: ControlOp, j: JsonV) -> Option<EncodeErrorV> {
    match c {
        ControlOp::And(t) => match encodes(rules, j, t) {
            Err(EncodeErrorV::TooDeep) => Some(EncodeErrorV::TooDeep),
            Err(e) => Some(EncodeErrorV::AndViolated(Box::new(e))),
            Ok(_) => None,
        },
        ControlOp::Within(t) => match encodes(rules, j, t) {
            Err(EncodeErrorV::TooDeep) => Some(EncodeErrorV::TooDeep),
            Err(e) => Some(EncodeErrorV::WithinViolated(Box::new(e))),
            Ok(_) => None,
        },
        _ => check(rules, v, c, j, 0),
    }
}

/// The first of the constraints `cs` that `v` violates, with no bound on
/// the steps.
pub open spec fn check_all_u(rules: Seq<Rule>, v: CborV, cs: Seq<ControlOp>, j: JsonV) -> Option<EncodeErrorV>
    decreases cs.len(),
{
    if cs.len() == 0 {
        None
    } else {
        match check_all_u(rules, v, cs.drop_last(), j) {
            Some(e) => Some(e),
            None => check_u(rules, v, cs.last(), j),
        }
    }
}

/// A run that finishes gives `encodes`.
pub proof fn lemma_encodes_at(rules: Seq<Rule>, j: JsonV, t: TypeExpr, f: nat)
    requires
        !ran_out(encode(rules, j, t, f)),
    ensures
        encodes(rules, j, t) == encode(rules, j, t, f),
{
    let g = choose|g: nat| !ran_out(#[trigger] encode(rules, j, t, g));
    assert(!ran_out(encode(rules, j, t, g)));
    if f <= g {
        lemma_encode_steps(rules, j, t, f, g);
    } else {
        lemma_encode_steps(rules, j, t, g, f);
    }
}

/// Every run either runs out of steps or gives `encodes`.
pub proof fn lemma_encodes_each(rules: Seq<Rule>, j: JsonV, t: TypeExpr, f: nat)
    ensures
        ran_out(encode(rules, j, t, f)) || encode(rules, j, t, f) == encodes(rules, j, t),
{
    if !ran_out(encode(rules, j, t, f)) {
        lemma_encodes_at(rules, j, t, f);
    }
}

/// Where `encodes` finishes, every run with at least the returned number of
/// steps gives it.
pub proof fn lemma_encodes_steps(rules: Seq<Rule>, j: JsonV, t: TypeExpr) -> (f: nat)
    requires
        !ran_out(encodes(rules, j, t)),
    ensures
        forall|g: nat| f <= g ==> #[trigger] encode(rules, j, t, g) == encodes(rules, j, t),
{
    let f = choose|f: nat| !ran_out(#[trigger] encode(rules, j, t, f));
    lemma_encodes_at(rules, j, t, f);
    assert forall|g: nat| f <= g implies #[trigger] encode(rules, j, t, g) == encodes(rules, j, t) by {
        lemma_encode_steps(rules, j, t, f, g);
    }
    f
}

proof fn lemma_check_u_each(rules: Seq<Rule>, v: CborV, c: ControlOp, j: JsonV, f: nat)
    ensures
        check_ran_out(check(rules, v, c, j, f)) || check(rules, v, c, j, f) == check_u(rules, v, c, j),
{
    match c {
        ControlOp::And(t) => lemma_encodes_each(rules, j, t, f),
        ControlOp::Within(t) => lemma_encodes_each(rules, j, t, f),
        _ => {},
    }
}

proof fn lemma_check_u_steps(rules: Seq<Rule>, v: CborV, c: ControlOp, j: JsonV) -> (f: nat)
    requires
        !check_ran_out(check_u(rules, v, c, j)),
    ensures
        forall|g: nat| f <= g ==> #[trigger] check(rules, v, c, j, g) == check_u(rules, v, c, j),
{
    match c {
        ControlOp::And(t) => {
            let f = lemma_encodes_steps(rules, j, t);
            assert forall|g: nat| f <= g implies #[trigger] check(rules, v, c, j, g) == check_u(rules, v, c, j) by {
                assert(encode(rules, j, t, g) == encodes(rules, j, t));
            }
            f
        },
        ControlOp::Within(t) => {
            let f = lemma_encodes_steps(rules, j, t);
            assert forall|g: nat| f <= g implies #[trigger] check(rules, v, c, j, g) == check_u(rules, v, c, j) by {
                assert(encode(rules, j, t, g) == encodes(rules, j, t));
            }
            f
        },
        _ => 0,
    }
}

proof fn lemma_check_all_u_each(rules: Seq<Rule>, v: CborV, cs: Seq<ControlOp>, j: JsonV, f: nat)
    ensures
        check_ran_out(check_all(rules, v, cs, j, f)) || check_all(rules, v, cs, j, f) == check_all_u(rules, v, cs, j),
    decreases cs.len(),
{
    if cs.len() > 0 {
        lemma_check_all_u_each(rules, v, cs.drop_last(), j, f);
        lemma_check_u_each(rules, v, cs.last(), j, f);
    }
}

proof fn lemma_check_all_u_steps(rules: Seq<Rule>, v: CborV, cs: Seq<ControlOp>, j: JsonV) -> (f: nat)
    requires
        !check_ran_out(check_all_u(rules, v, cs, j)),
    ensures
        forall|g: nat| f <= g ==> #[trigger] check_all(rules, v, cs, j, g) == check_all_u(rules, v, cs, j),
    decreases cs.len(),
{
    if cs.len() == 0 {
        0
    } else {
        let f0 = lemma_check_all_u_steps(rules, v, cs.drop_last(), j);
        match check_all_u(rules, v, cs.drop_last(), j) {
            Some(e) => {
                assert forall|g: nat| f0 <= g implies #[trigger] check_all(rules, v, cs, j, g) == check_all_u(rules, v, cs, j) by {
                    assert(check_all(rules, v, cs.drop_last(), j, g) == Some(e));
                }
                f0
            },
            None => {
                let f1 = lemma_check_u_steps(rules, v, cs.last(), j);
                let f = if f0 <= f1 { f1 } else { f0 };
                assert forall|g: nat| f <= g implies #[trigger] check_all(rules, v, cs, j, g) == check_all_u(rules, v, cs, j) by {
                    assert(check_all(rules, v, cs.drop_last(), j, g) == None::<EncodeErrorV>);
                    assert(check(rules, v, cs.last(), j, g) == check_u(rules, v, cs.last(), j));
                }
                f
            },
        }
    }
}

/// Constraints only accept or reject: a value of a constrained type is
/// encoded as its base type is, and then each constraint is checked in
/// order (`.and` and `.within` encode the JSON afresh against their type);
/// the first violated one is the error, else the base's encoding is the
/// result.
pub proof fn law_constraints_only_check(rules: Seq<Rule>, j: JsonV, t: TypeExpr)
    ensures
        resolve_type(rules, t) matches TypeExpr::Constrained { base_type, constraints } ==> encodes(rules, j, t)
            == match encodes(rules, j, *base_type) {
            Err(e) => Err(e),
            Ok(v) => match check_all_u(rules, v, constraints@, j) {
                Some(e) => Err(e),
                None => Ok(v),
            },
        },
{
    match resolve_type(rules, t) {
        TypeExpr::Constrained { base_type, constraints } => {
            let b = *base_type;
            let cs = constraints@;
            let bu = encodes(rules, j, b);
            if ran_out(bu) {
                assert forall|f: nat| ran_out(#[trigger] encode(rules, j, t, f)) by {
                    if f > 0 {
                        lemma_encodes_each(rules, j, b, (f - 1) as nat);
                    }
                }
            } else {
                let fb = lemma_encodes_steps(rules, j, b);
                match bu {
                    Err(e) => {
                        assert(encode(rules, j, b, fb) == bu);
                        lemma_encodes_at(rules, j, t, fb + 1);
                    },
                    Ok(v) => {
                        let cu = check_all_u(rules, v, cs, j);
                        if check_ran_out(cu) {
                            assert forall|f: nat| ran_out(#[trigger] encode(rules, j, t, f)) by {
                                if f > 0 {
                                    let g = (f - 1) as nat;
                                    lemma_encodes_each(rules, j, b, g);
                                    lemma_check_all_u_each(rules, v, cs, j, g);
                                }
                            }
                        } else {
                            let fc = lemma_check_all_u_steps(rules, v, cs, j);
                            let f = if fb <= fc { fc } else { fb };
                            assert(encode(rules, j, b, f) == bu);
                            assert(check_all(rules, v, cs, j, f) == cu);
                            lemma_encodes_at(rules, j, t, f + 1);
                        }
                    },
                }
            }
        },
        _ => {},
    }
}

} // verus!
