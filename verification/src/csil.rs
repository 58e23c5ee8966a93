//! The parsed form of a `.csil` file: its definitions and services, and the
//! lookups the listing and the payload logic make in it.
use vstd::prelude::*;

verus! {

/// A floating-point number, carried as the plain facts this library reads of
/// it: its IEEE-754 bit pattern, its decimal rendering (as Rust's `Display`
/// writes it), its rendering as a JSON number (as serde_json writes it;
/// `null` when it is not finite) and its CBOR encoding (as ciborium writes a
/// float).
#[derive(Clone, Debug)]
pub struct FloatNum {
    pub bits: u64,
    pub text: String,
    pub json: String,
    pub cbor: Vec<u8>,
}

/// A literal value in a `.csil` file.
#[derive(Debug)]
pub enum Literal {
    Integer(i64),
    Float(FloatNum),
    Text(String),
    Bytes(Vec<u8>),
    Bool(bool),
    Null,
    Array(Vec<Literal>),
}

/// How many times a group entry or array element may occur.
#[derive(Clone, Copy, Debug, PartialEq, Eq)]
pub enum Occurrence {
    Optional,
    ZeroOrMore,
    OneOrMore,
    Exact(u64),
    Range { min: Option<u64>, max: Option<u64> },
}

/// The bound of a `.size` control operator.
#[derive(Clone, Copy, Debug, PartialEq, Eq)]
pub enum SizeConstraint {
    Exact(u64),
    Range { min: u64, max: u64 },
    Min(u64),
    Max(u64),
}

/// A type expression.
#[derive(Debug)]
pub enum TypeExpr {
    Builtin(String),
    Reference(String),
    Literal(Literal),
    Group(Group),
    Tuple(Group),
    Array { element_type: Box<TypeExpr>, occurrence: Option<Occurrence> },
    MapType { key: Box<TypeExpr>, value: Box<TypeExpr> },
    Choice(Vec<TypeExpr>),
    Range { start: Option<i64>, end: Option<i64>, inclusive: bool },
    Socket(String),
    Plug(String),
    Constrained { base_type: Box<TypeExpr>, constraints: Vec<ControlOp> },
}

/// A group: a sequence of (possibly keyed) entries.
#[derive(Debug)]
pub struct Group {
    pub entries: Vec<GroupEntry>,
}

/// One entry of a group.
#[derive(Debug)]
pub struct GroupEntry {
    pub key: Option<GroupKey>,
    pub value_type: TypeExpr,
    pub occurrence: Option<Occurrence>,
}

/// The key of a group entry: a bare name, a literal, or a type (a catch-all
/// entry `* key => value`).
#[derive(Debug)]
pub enum GroupKey {
    Bare(String),
    Literal(Literal),
    Type(TypeExpr),
}

/// A control operator attached to a type.
#[derive(Debug)]
pub enum ControlOp {
    Size(SizeConstraint),
    Regex(String),
    Default(Literal),
    GreaterEqual(Literal),
    LessEqual(Literal),
    GreaterThan(Literal),
    LessThan(Literal),
    Equal(Literal),
    NotEqual(Literal),
    Bits(String),
    And(TypeExpr),
    Within(TypeExpr),
    Json,
    Cbor,
    Cborseq,
}

} // verus!

verus! {

/// The direction arrow of a service operation: `->`, `<->` or `<-`.
#[derive(Clone, Copy, Debug, PartialEq, Eq)]
pub enum Direction {
    Unidirectional,
    Bidirectional,
    Reverse,
}

/// One operation of a service: `name: input -> output`.
#[derive(Debug)]
pub struct ServiceOp {
    pub name: String,
    pub input_type: TypeExpr,
    pub output_type: TypeExpr,
    pub direction: Direction,
}

/// What a rule of the file defines: a named type (a type definition, or a
/// group definition taken as a group type), a service, or something the
/// listing does not show.
#[derive(Debug)]
pub enum RuleKind {
    Definition(TypeExpr),
    Service(Vec<ServiceOp>),
    Other,
}

/// One named rule of the file.
#[derive(Debug)]
pub struct Rule {
    pub name: String,
    pub kind: RuleKind,
}

/// The rules of a parsed `.csil` file, in source order.
#[derive(Debug)]
pub struct CsilSpec {
    pub rules: Vec<Rule>,
}

/// `==` on two strings: std's `PartialEq` for `str`.
///
/// Trusted: claims that the result is whether the two texts are equal, as
/// std documents.
#[verifier::external_body]
pub(crate) fn str_eq(a: &str, b: &str) -> (r: bool)
    ensures
        r == (a@ == b@),
{
    a == b
}

pub open spec fn is_definition(r: Rule) -> bool {
    r.kind is Definition
}

/// The index of the definition named `name` among the first `n` rules: the
/// last one, when the name is defined more than once.
pub open spec fn find_definition_in(rules: Seq<Rule>, name: Seq<char>, n: int) -> Option<int>
    decreases n,
{
    if n <= 0 {
        None
    } else if is_definition(rules[n - 1]) && rules[n - 1].name@ == name {
        Some(n - 1)
    } else {
        find_definition_in(rules, name, n - 1)
    }
}

/// The index of the definition named `name`: the last rule that defines it.
pub open spec fn find_definition(rules: Seq<Rule>, name: Seq<char>) -> Option<int> {
    find_definition_in(rules, name, rules.len() as int)
}

/// The type that rule `i` defines.
pub open spec fn definition_type(rules: Seq<Rule>, i: int) -> TypeExpr {
    rules[i].kind->Definition_0
}

/// The names of the definitions among the first `n` rules, in source order.
pub open spec fn definition_names(rules: Seq<Rule>, n: int) -> Seq<Seq<char>>
    decreases n,
{
    if n <= 0 {
        Seq::empty()
    } else if is_definition(rules[n - 1]) {
        definition_names(rules, n - 1).push(rules[n - 1].name@)
    } else {
        definition_names(rules, n - 1)
    }
}

/// Where the first operation named `name` stands, searching services in
/// source order from rule `k` on: (rule index, operation index).
pub open spec fn find_operation_from(rules: Seq<Rule>, name: Seq<char>, k: int) -> Option<(int, int)>
    decreases rules.len() - k,
{
    if k < 0 || k >= rules.len() {
        None
    } else {
        match rules[k].kind {
            RuleKind::Service(ops) => match first_op_named(ops@, name, 0) {
                Some(j) => Some((k, j)),
                None => find_operation_from(rules, name, k + 1),
            },
            _ => find_operation_from(rules, name, k + 1),
        }
    }
}

/// The index of the first operation named `name` at or after `j`.
pub open spec fn first_op_named(ops: Seq<ServiceOp>, name: Seq<char>, j: int) -> Option<int>
    decreases ops.len() - j,
{
    if j < 0 || j >= ops.len() {
        None
    } else if ops[j].name@ == name {
        Some(j)
    } else {
        first_op_named(ops, name, j + 1)
    }
}

/// A parsed `.csil` file, with the names of its definitions in source order.
pub struct File {
    spec: CsilSpec,
    order: Vec<String>,
}

impl File {
    /// The file's rules.
    pub closed spec fn rules(&self) -> Seq<Rule> {
        self.spec.rules@
    }

    /// The names of the file's definitions, in source order.
    pub open spec fn names(&self) -> Seq<Seq<char>> {
        definition_names(self.rules(), self.rules().len() as int)
    }

    /// Holds when `order` lists exactly the definition names.
    pub closed spec fn wf(&self) -> bool {
        &&& self.order@.len() == self.names().len()
        &&& forall|i: int| 0 <= i < self.order@.len() ==> #[trigger] self.order@[i]@ == self.names()[i]
    }

    /// Indexes a parsed file: keeps its rules and lists the names of its
    /// definitions in source order.
    pub fn from_spec(spec: CsilSpec) -> (f: File)
        ensures
            f.wf(),
            f.rules() == spec.rules@,
    {
        let mut order: Vec<String> = Vec::new();
        let mut i: usize = 0;
        while i < spec.rules.len()
            invariant
                i <= spec.rules.len(),
                order@.len() == definition_names(spec.rules@, i as int).len(),
                forall|j: int| 0 <= j < order@.len() ==> #[trigger] order@[j]@ == definition_names(spec.rules@, i as int)[j],
            decreases spec.rules.len() - i,
        {
            let rule = &spec.rules[i];
            match &rule.kind {
                RuleKind::Definition(_) => {
                    order.push(rule.name.clone());
                },
                _ => {},
            }
            i = i + 1;
        }
        File { spec, order }
    }

    /// The number of rules.
    pub fn rule_count(&self) -> (n: usize)
        ensures
            n == self.rules().len(),
    {
        self.spec.rules.len()
    }

    /// Rule `i`.
    pub fn rule(&self, i: usize) -> (r: &Rule)
        requires
            i < self.rules().len(),
        ensures
            *r == self.rules()[i as int],
    {
        &self.spec.rules[i]
    }

    /// The names of the file's definitions, in source order.
    pub fn definition_order(&self) -> (r: &Vec<String>)
        requires
            self.wf(),
        ensures
            r@.len() == self.names().len(),
            forall|i: int| 0 <= i < r@.len() ==> #[trigger] r@[i]@ == self.names()[i],
    {
        &self.order
    }

    /// The index of the definition named `name` (the last one, if it is
    /// defined more than once).
    pub fn find_definition(&self, name: &str) -> (r: Option<usize>)
        ensures
            r matches Some(i) ==> find_definition(self.rules(), name@) == Some(i as int),
            r is None ==> find_definition(self.rules(), name@) is None,
    {
        let mut n: usize = self.spec.rules.len();
        while n > 0
            invariant
                n <= self.spec.rules@.len(),
                find_definition(self.rules(), name@) == find_definition_in(self.rules(), name@, n as int),
            decreases n,
        {
            let rule = &self.spec.rules[n - 1];
            let is_def = match &rule.kind {
                RuleKind::Definition(_) => true,
                _ => false,
            };
            if is_def && str_eq(rule.name.as_str(), name) {
                return Some(n - 1);
            }
            n = n - 1;
        }
        None
    }

    /// The first operation named `name`, searching the services in source
    /// order, with the name of the service that holds it.
    #[verifier::loop_isolation(false)]
    pub fn find_operation(&self, name: &str) -> (r: Option<(&str, &ServiceOp)>)
        ensures
            match find_operation_from(self.rules(), name@, 0) {
                Some((k, j)) => r matches Some((svc, op)) && svc@ == self.rules()[k].name@
                    && *op == self.rules()[k].kind->Service_0@[j],
                None => r is None,
            },
    {
        let mut k: usize = 0;
        while k < self.spec.rules.len()
            invariant
                k <= self.spec.rules@.len(),
                find_operation_from(self.rules(), name@, 0) == find_operation_from(self.rules(), name@, k as int),
            decreases self.spec.rules.len() - k,
        {
            let rule = &self.spec.rules[k];
            match &rule.kind {
                RuleKind::Service(ops) => {
                    let mut j: usize = 0;
                    while j < ops.len()
                        invariant
                            j <= ops@.len(),
                            first_op_named(ops@, name@, 0) == first_op_named(ops@, name@, j as int),
                        decreases ops.len() - j,
                    {
                        if str_eq(ops[j].name.as_str(), name) {
                            return Some((rule.name.as_str(), &ops[j]));
                        }
                        j = j + 1;
                    }
                },
                _ => {},
            }
            k = k + 1;
        }
        None
    }
}

} // verus!
