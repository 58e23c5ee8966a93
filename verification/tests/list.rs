use csilctl::csil::{
    ControlOp, CsilSpec, Direction, File, Group, GroupEntry, GroupKey, Literal, Occurrence, Rule,
    RuleKind, ServiceOp, TypeExpr,
};
use csilctl::list::{render_type_string, resolve, run_list};

fn r(n: &str) -> TypeExpr {
    TypeExpr::Reference(n.to_string())
}
fn b(n: &str) -> TypeExpr {
    TypeExpr::Builtin(n.to_string())
}
fn field(n: &str, t: TypeExpr) -> GroupEntry {
    GroupEntry { key: Some(GroupKey::Bare(n.to_string())), value_type: t, occurrence: None }
}
fn opt_field(n: &str, t: TypeExpr) -> GroupEntry {
    GroupEntry {
        key: Some(GroupKey::Bare(n.to_string())),
        value_type: t,
        occurrence: Some(Occurrence::Optional),
    }
}
fn group(entries: Vec<GroupEntry>) -> TypeExpr {
    TypeExpr::Group(Group { entries })
}
fn def(n: &str, t: TypeExpr) -> Rule {
    Rule { name: n.to_string(), kind: RuleKind::Definition(t) }
}
fn op(n: &str, input: TypeExpr, output: TypeExpr) -> ServiceOp {
    ServiceOp { name: n.to_string(), input_type: input, output_type: output, direction: Direction::Unidirectional }
}
fn service(n: &str, ops: Vec<ServiceOp>) -> Rule {
    Rule { name: n.to_string(), kind: RuleKind::Service(ops) }
}
fn file(rules: Vec<Rule>) -> File {
    File::from_spec(CsilSpec { rules })
}
fn text_lit(s: &str) -> TypeExpr {
    TypeExpr::Literal(Literal::Text(s.to_string()))
}

fn strip_ansi(s: &str) -> String {
    let mut out = String::new();
    let mut in_escape = false;
    for c in s.chars() {
        if in_escape {
            if c == 'm' {
                in_escape = false;
            }
            continue;
        }
        if c == '\x1b' {
            in_escape = true;
            continue;
        }
        out.push(c);
    }
    out
}

const PATH: &str = "fixture.csil";

/// The fixture `Task = { id: text, ? label: text }`, `StringInt64Map = {* text => int}`,
/// `CreateRequest = { name: text }`, `CreateResponse = { task: Task }`,
/// `ErrorType = { message: text }`,
/// `service Widgets { Create: CreateRequest -> CreateResponse / ErrorType }`.
fn fixture() -> File {
    file(vec![
        def("Task", group(vec![field("id", b("text")), opt_field("label", b("text"))])),
        def("StringInt64Map", TypeExpr::MapType { key: Box::new(b("text")), value: Box::new(b("int")) }),
        def("CreateRequest", group(vec![field("name", b("text"))])),
        def("CreateResponse", group(vec![field("task", r("Task"))])),
        def("ErrorType", group(vec![field("message", b("text"))])),
        service(
            "Widgets",
            vec![op("Create", r("CreateRequest"), TypeExpr::Choice(vec![r("CreateResponse"), r("ErrorType")]))],
        ),
    ])
}

/// `FooRequest = { foo: text }`, `BarRequest = { bar: text }`,
/// `ItemRequest = FooRequest / BarRequest`, `ItemResponse = { items: [text] }`,
/// `service Items { Item: ItemRequest -> ItemResponse }`.
fn union_request_fixture() -> File {
    file(vec![
        def("FooRequest", group(vec![field("foo", b("text"))])),
        def("BarRequest", group(vec![field("bar", b("text"))])),
        def("ItemRequest", TypeExpr::Choice(vec![r("FooRequest"), r("BarRequest")])),
        def(
            "ItemResponse",
            group(vec![field("items", TypeExpr::Array { element_type: Box::new(b("text")), occurrence: None })]),
        ),
        service("Items", vec![op("Item", r("ItemRequest"), r("ItemResponse"))]),
    ])
}

fn list(f: &File, item: Option<&str>, verbose: bool) -> String {
    strip_ansi(&run_list(f, PATH, item, verbose, true).ok().unwrap())
}

#[test]
fn basic_listing_groups_by_service_and_lists_other_types() {
    let out = list(&fixture(), None, false);
    assert!(out.contains("Services:"));
    assert!(out.contains("Widgets"));
    assert!(out.contains("Create"));
    assert!(out.contains("Types:"));
    assert!(out.contains("Task"));
    assert!(out.contains("StringInt64Map"));
    assert!(out.contains("CreateRequest"));
    assert!(out.contains("CreateResponse"));
    assert!(out.contains("ErrorType"));
}

#[test]
fn verbose_listing_expands_every_message_and_type() {
    let out = list(&fixture(), None, true);
    assert!(out.contains("request"));
    assert!(out.contains("CreateRequest"));
    assert!(out.contains("response"));
    assert!(out.contains("CreateResponse / ErrorType"));
    assert!(!out.contains("error"));
    assert!(out.contains("name"));
    assert!(out.contains("task"));
    assert!(out.contains("message"));
    assert!(out.contains("{* text => int}"));
    assert!(out.contains("label?"));
}

#[test]
fn single_method_item_prints_under_its_service() {
    let out = list(&fixture(), Some("Create"), false);
    assert!(out.contains("Widgets"));
    assert!(out.contains("request"));
    assert!(out.contains("CreateRequest"));
    assert!(out.contains("response"));
    assert!(out.contains("CreateResponse / ErrorType"));
    assert!(!out.contains("error"));
}

#[test]
fn single_type_item_expands_map_alias() {
    let out = list(&fixture(), Some("StringInt64Map"), false);
    assert!(out.contains("StringInt64Map"));
    assert!(out.contains("{* text => int}"));
}

#[test]
fn verbose_is_ignored_when_an_item_is_given() {
    let f = fixture();
    let with_verbose = run_list(&f, PATH, Some("Task"), true, true).ok().unwrap();
    let without_verbose = run_list(&f, PATH, Some("Task"), false, true).ok().unwrap();
    assert_eq!(with_verbose, without_verbose);
}

#[test]
fn basic_listing_shows_the_request_alias_and_its_union_members() {
    let out = list(&union_request_fixture(), None, false);
    assert!(out.contains("ItemRequest"));
    assert!(out.contains("ItemResponse"));
    assert!(out.contains("FooRequest"));
    assert!(out.contains("BarRequest"));
}

#[test]
fn verbose_listing_shows_request_name_and_declared_union_arms() {
    let out = list(&union_request_fixture(), None, true);
    assert!(out.contains("request"));
    assert!(out.contains("ItemRequest\n        FooRequest / BarRequest\n"));
}

#[test]
fn single_type_item_shows_union_branch_names_and_contents() {
    let out = list(&union_request_fixture(), Some("ItemRequest"), false);
    assert!(out.contains("ItemRequest"));
    assert!(out.contains("FooRequest"));
    assert!(out.contains("foo"));
    assert!(out.contains("BarRequest"));
    assert!(out.contains("bar"));
}

#[test]
fn single_method_item_shows_request_name_and_declared_union_arms() {
    let out = list(&union_request_fixture(), Some("Item"), false);
    assert!(out.contains("request"));
    assert!(out.contains("ItemRequest\n        FooRequest / BarRequest\n"));
    assert!(!out.contains("foo"));
    assert!(!out.contains("bar"));
}

#[test]
fn single_method_item_expands_an_anonymous_union_request_fully() {
    let f = file(vec![
        def("FooRequest", group(vec![field("id", b("text")), field("key", b("text"))])),
        def("BarRequest", group(vec![field("key", b("text"))])),
        def(
            "ItemResponse",
            group(vec![field("items", TypeExpr::Array { element_type: Box::new(b("text")), occurrence: None })]),
        ),
        service(
            "Items",
            vec![op("Item", TypeExpr::Choice(vec![r("FooRequest"), r("BarRequest")]), r("ItemResponse"))],
        ),
    ]);
    let out = list(&f, Some("Item"), false);
    let joined = "FooRequest / BarRequest";
    let joined_idx = out.find(joined).unwrap();
    let foo_header_idx = out[joined_idx + joined.len()..].find("FooRequest").unwrap();
    assert!(out.contains("id"));
    assert!(out.contains("key"));
    assert!(foo_header_idx > 0);
}

#[test]
fn nested_union_alias_field_shows_bare_name_and_branches_appear_once_in_types() {
    let f = file(vec![
        def("FooRequest", group(vec![field("foo", b("text"))])),
        def("BarRequest", group(vec![field("bar", b("text"))])),
        def("ItemRequest", TypeExpr::Choice(vec![r("FooRequest"), r("BarRequest")])),
        def(
            "Wrapper",
            group(vec![field(
                "items",
                TypeExpr::Array { element_type: Box::new(r("ItemRequest")), occurrence: None },
            )]),
        ),
    ]);
    let out = list(&f, None, true);
    assert!(out.contains("[ItemRequest]"));
    assert_eq!(out.matches("\nFooRequest\n").count(), 1);
    assert_eq!(out.matches("\nBarRequest\n").count(), 1);
    assert!(out.contains("foo"));
    assert!(out.contains("bar"));
}

#[test]
fn no_service_blocks_lists_types_only() {
    let f = file(vec![def("Task", group(vec![field("id", b("text"))]))]);
    let out = list(&f, None, false);
    assert!(!out.contains("Services:"));
    assert!(out.contains("Types:"));
    assert!(out.contains("Task"));
}

#[test]
fn literal_union_does_not_repeat_arms_as_their_own_blocks() {
    let f = file(vec![def("Direction", TypeExpr::Choice(vec![text_lit("north"), text_lit("south")]))]);
    let out = list(&f, Some("Direction"), false);
    assert_eq!(out, "Direction\n  \"north\" / \"south\"\n");
}

#[test]
fn mixed_union_still_expands_the_non_literal_arm() {
    let f = file(vec![
        def("FooRequest", group(vec![field("foo", b("text"))])),
        def("MixedUnion", TypeExpr::Choice(vec![r("FooRequest"), text_lit("literal")])),
    ]);
    let out = list(&f, Some("MixedUnion"), false);
    assert_eq!(out, "MixedUnion\n  FooRequest / \"literal\"\n  FooRequest\n    foo text\n");
}

#[test]
fn error_unknown_item() {
    let err = run_list(&fixture(), PATH, Some("DoesNotExist"), false, true).err().unwrap();
    assert!(err.message().contains("no method or type named"));
}

// Unit tests of the listing's pieces.

#[test]
fn resolve_follows_ident_chain_to_primitive() {
    let f = file(vec![def("A", r("B")), def("B", r("C")), def("C", b("text"))]);
    let t = r("A");
    let resolved = resolve(&t, &f);
    assert!(matches!(resolved, TypeExpr::Builtin(b) if b == "text"));
}

#[test]
fn resolve_stops_at_structural_type() {
    let f = file(vec![def("A", r("B")), def("B", group(vec![field("id", b("text"))]))]);
    let t = r("A");
    assert!(matches!(resolve(&t, &f), TypeExpr::Group(_)));
}

#[test]
fn resolve_stops_at_unknown_ident() {
    let f = file(vec![def("A", b("text"))]);
    let t = r("Unknown");
    assert!(matches!(resolve(&t, &f), TypeExpr::Reference(n) if n == "Unknown"));
}

#[test]
fn resolve_breaks_cycles() {
    let f = file(vec![def("A", r("B")), def("B", r("A"))]);
    let t = r("A");
    assert!(matches!(resolve(&t, &f), TypeExpr::Reference(_)));
}

#[test]
fn resolving_a_resolved_type_gives_it_back() {
    let f = file(vec![def("C", r("A")), def("A", r("B")), def("B", r("A")), def("D", r("Missing"))]);
    for name in ["C", "A", "B", "D", "Missing"] {
        let t = r(name);
        let once = resolve(&t, &f);
        let twice = resolve(once, &f);
        assert_eq!(render_type_string(once), render_type_string(twice));
    }
    // From C the walk reaches A, B and then A again: it stops at that A.
    assert_eq!(render_type_string(resolve(&r("C"), &f)), "A");
}

#[test]
fn render_type_ident_stays_unresolved_name() {
    assert_eq!(render_type_string(&r("A")), "A");
}

#[test]
fn render_type_builtin() {
    let f = file(vec![def("A", b("text"))]);
    let t = r("A");
    assert_eq!(render_type_string(resolve(&t, &f)), "text");
}

#[test]
fn render_type_literal_string_and_number() {
    assert_eq!(render_type_string(&text_lit("ok")), "\"ok\"");
    assert_eq!(render_type_string(&TypeExpr::Literal(Literal::Integer(42))), "42");
}

#[test]
fn render_type_group() {
    let f = file(vec![def("A", group(vec![field("id", b("text")), opt_field("label", b("text"))]))]);
    let t = r("A");
    assert_eq!(render_type_string(resolve(&t, &f)), "{id, label}");
}

#[test]
fn render_type_map() {
    let f = file(vec![def("A", TypeExpr::MapType { key: Box::new(b("text")), value: Box::new(b("int")) })]);
    let t = r("A");
    assert_eq!(render_type_string(resolve(&t, &f)), "{* text => int}");
}

#[test]
fn render_type_array_with_occurrence() {
    let f = file(vec![def(
        "A",
        TypeExpr::Array { element_type: Box::new(b("text")), occurrence: Some(Occurrence::ZeroOrMore) },
    )]);
    let t = r("A");
    assert_eq!(render_type_string(resolve(&t, &f)), "[* text]");
}

#[test]
fn render_type_array_without_occurrence() {
    let f = file(vec![def("A", TypeExpr::Array { element_type: Box::new(b("text")), occurrence: None })]);
    let t = r("A");
    assert_eq!(render_type_string(resolve(&t, &f)), "[text]");
}

#[test]
fn render_type_choice() {
    let f = file(vec![def("A", TypeExpr::Choice(vec![b("text"), b("int")]))]);
    let t = r("A");
    assert_eq!(render_type_string(resolve(&t, &f)), "text / int");
}

#[test]
fn render_type_includes_constraints() {
    let f = file(vec![def(
        "A",
        TypeExpr::Constrained {
            base_type: Box::new(b("int")),
            constraints: vec![
                ControlOp::GreaterEqual(Literal::Integer(0)),
                ControlOp::LessEqual(Literal::Integer(120)),
            ],
        },
    )]);
    let t = r("A");
    assert_eq!(render_type_string(resolve(&t, &f)), "int .ge(0) .le(120)");
}

#[test]
fn find_operation_locates_by_name() {
    let f = file(vec![
        def("Req", group(vec![field("x", b("text"))])),
        def("Resp", group(vec![field("y", b("text"))])),
        service("S", vec![op("Op", r("Req"), r("Resp"))]),
    ]);
    let (svc, o) = f.find_operation("Op").unwrap();
    assert_eq!(svc, "S");
    assert_eq!(o.name, "Op");
    assert!(f.find_operation("Missing").is_none());
}

#[test]
fn run_list_basic_and_verbose_and_errors() {
    let f = fixture();

    let basic = list(&f, None, false);
    assert!(basic.contains("Services:"));
    assert!(basic.contains("Widgets"));
    assert!(basic.contains("Create"));

    let verbose = list(&f, None, true);
    assert!(verbose.contains("{* text => int}"));
    assert!(verbose.contains("label?"));

    let single = list(&f, Some("StringInt64Map"), false);
    assert!(single.contains("{* text => int}"));

    let empty = file(vec![def("Task", group(vec![field("id", b("text"))]))]);
    let no_services = list(&empty, None, false);
    assert!(!no_services.contains("Services:"));
    assert!(no_services.contains("Types:"));
    assert!(no_services.contains("Task"));

    let err = run_list(&f, PATH, Some("DoesNotExist"), false, true).err().unwrap();
    assert!(err.message().contains("no method or type named"));
}
