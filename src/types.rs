use vstd::prelude::*;

verus! {

broadcast use vstd::std_specs::vec::group_vec_axioms, vstd::seq::group_seq_axioms;

/// A builtin procedure that a scope can name.
#[derive(Clone, Copy, Debug, PartialEq, Eq, Structural)]
pub enum Native {
    Add,
    Subtract,
    Multiply,
    Divide,
    Greater,
    Less,
    Equal,
    GreaterEqual,
    LessEqual,
    Not,
}

/// A runtime value, and the leaf of an expression tree.
///
/// A float is carried as the text of a float literal (`"1.5"`, `"3.0"`,
/// `"inf"`): the library moves floats around but leaves their arithmetic
/// to its caller (see `FloatFolds`). Two floats are equal when their texts
/// are.
#[derive(Debug, PartialEq)]
pub enum Primitive {
    Identifier(String),
    String(String),
    Integer(i32),
    Float(String),
    Bool(bool),
    Nil,
    Function(Native),
    Lambda(Vec<Primitive>, Box<ParseTree>),
    Tuple(Vec<Primitive>),
}

/// The expression tree that the reader builds.
#[derive(Debug, PartialEq)]
pub enum ParseTree {
    Element(Primitive),
    List(Vec<ParseTree>),
}

/// The mathematical model of a `Primitive`.
pub enum Value {
    Symbol(Seq<char>),
    Str(Seq<char>),
    Int(i32),
    Float(Seq<char>),
    Bool(bool),
    Nil,
    NativeProcedure(Native),
    Lambda(Seq<Value>, Box<Tree>),
    Tuple(Seq<Value>),
}

/// The mathematical model of a `ParseTree`.
pub enum Tree {
    Atom(Value),
    Form(Seq<Tree>),
}

pub open spec fn value_of(p: Primitive) -> Value
    decreases p, 1int,
{
    match p {
        Primitive::Identifier(s) => Value::Symbol(s@),
        Primitive::String(s) => Value::Str(s@),
        Primitive::Integer(n) => Value::Int(n),
        Primitive::Float(s) => Value::Float(s@),
        Primitive::Bool(b) => Value::Bool(b),
        Primitive::Nil => Value::Nil,
        Primitive::Function(f) => Value::NativeProcedure(f),
        Primitive::Lambda(params, body) => Value::Lambda(values_of(params@), Box::new(tree_of(*body))),
        Primitive::Tuple(items) => Value::Tuple(values_of(items@)),
    }
}

pub open spec fn values_of(s: Seq<Primitive>) -> Seq<Value>
    decreases s, 0int,
{
    if s.len() == 0 {
        Seq::empty()
    } else {
        values_of(s.drop_last()).push(value_of(s.last()))
    }
}

pub open spec fn tree_of(t: ParseTree) -> Tree
    decreases t, 1int,
{
    match t {
        ParseTree::Element(p) => Tree::Atom(value_of(p)),
        ParseTree::List(items) => Tree::Form(trees_of(items@)),
    }
}

pub open spec fn trees_of(s: Seq<ParseTree>) -> Seq<Tree>
    decreases s, 0int,
{
    if s.len() == 0 {
        Seq::empty()
    } else {
        trees_of(s.drop_last()).push(tree_of(s.last()))
    }
}

/// A special form: a construct whose operands are not all evaluated first.
#[derive(Clone, Copy, Debug, PartialEq, Eq, Structural)]
pub enum SpecialForm {
    Define,
    Lambda,
    If,
    Cond,
    And,
    Or,
}

/// Why an evaluation stopped without a value.
#[derive(Debug, PartialEq)]
pub enum EvalError {
    /// A native procedure got an operand of a variant it cannot take.
    TypeMismatch { procedure: Native, value: Primitive },
    /// A procedure or special form got another number of operands than it
    /// takes; for a native that takes any number from some least one on,
    /// `expected` is that least number.
    ArityMismatch { expected: usize, found: usize },
    /// A special form whose operands do not have the shape it needs.
    MalformedSpecialForm { form: SpecialForm },
    /// Procedure calls were nested deeper than evaluation allows.
    RecursionLimit,
    /// An integer division by zero.
    DivisionByZero,
    /// The binary64 fold of `procedure` over `operands` is needed and not
    /// recorded: record it in the `FloatFolds` and evaluate again.
    FloatFoldNeeded { procedure: Native, operands: Vec<Primitive> },
}

/// The mathematical model of an `EvalError`.
pub enum Failure {
    TypeMismatch(Native, Value),
    ArityMismatch(nat, nat),
    MalformedSpecialForm(SpecialForm),
    RecursionLimit,
    DivisionByZero,
    FloatFoldNeeded(Native, Seq<Value>),
}

impl View for EvalError {
    type V = Failure;

    open spec fn view(&self) -> Failure {
        match self {
            EvalError::TypeMismatch { procedure, value } => Failure::TypeMismatch(*procedure, value_of(*value)),
            EvalError::ArityMismatch { expected, found } => Failure::ArityMismatch(*expected as nat, *found as nat),
            EvalError::MalformedSpecialForm { form } => Failure::MalformedSpecialForm(*form),
            EvalError::RecursionLimit => Failure::RecursionLimit,
            EvalError::DivisionByZero => Failure::DivisionByZero,
            EvalError::FloatFoldNeeded { procedure, operands } => Failure::FloatFoldNeeded(
                *procedure,
                values_of(operands@),
            ),
        }
    }
}

/// The model of a result that is a value or an error.
pub open spec fn outcome_of(r: Result<Primitive, EvalError>) -> Result<Value, Failure> {
    match r {
        Ok(p) => Ok(value_of(p)),
        Err(e) => Err(e@),
    }
}

pub proof fn lemma_values_of(s: Seq<Primitive>)
    ensures
        values_of(s).len() == s.len(),
        forall|i: int| 0 <= i < s.len() ==> #[trigger] values_of(s)[i] == value_of(s[i]),
    decreases s.len(),
{
    if s.len() > 0 {
        lemma_values_of(s.drop_last());
    }
}

pub proof fn lemma_trees_of(s: Seq<ParseTree>)
    ensures
        trees_of(s).len() == s.len(),
        forall|i: int| 0 <= i < s.len() ==> #[trigger] trees_of(s)[i] == tree_of(s[i]),
    decreases s.len(),
{
    if s.len() > 0 {
        lemma_trees_of(s.drop_last());
    }
}

impl View for Primitive {
    type V = Value;

    open spec fn view(&self) -> Value {
        value_of(*self)
    }
}

impl View for ParseTree {
    type V = Tree;

    open spec fn view(&self) -> Tree {
        tree_of(*self)
    }
}

impl Primitive {
    /// A deep copy.
    pub fn duplicate(&self) -> (r: Primitive)
        ensures
            r@ == self@,
        decreases self, 0int,
    {
        match self {
            Primitive::Identifier(s) => Primitive::Identifier(s.clone()),
            Primitive::String(s) => Primitive::String(s.clone()),
            Primitive::Integer(n) => Primitive::Integer(*n),
            Primitive::Float(s) => Primitive::Float(s.clone()),
            Primitive::Bool(b) => Primitive::Bool(*b),
            Primitive::Nil => Primitive::Nil,
            Primitive::Function(f) => Primitive::Function(*f),
            Primitive::Lambda(params, body) => {
                let b: &ParseTree = body;
                Primitive::Lambda(duplicate_all(params), Box::new(b.duplicate()))
            },
            Primitive::Tuple(items) => Primitive::Tuple(duplicate_all(items)),
        }
    }
}

/// A deep copy of each value.
pub fn duplicate_all(v: &Vec<Primitive>) -> (r: Vec<Primitive>)
    ensures
        values_of(r@) == values_of(v@),
    decreases v, 1int,
{
    let mut r: Vec<Primitive> = Vec::new();
    let mut i: usize = 0;
    while i < v.len()
        invariant
            i <= v.len(),
            values_of(r@) == values_of(v@.subrange(0, i as int)),
        decreases v.len() - i,
    {
        assert(decreases_to!(v => v@[i as int]));
        let p = v[i].duplicate();
        proof {
            assert(r@.push(p).drop_last() == r@);
            assert(v@.subrange(0, i + 1).drop_last() == v@.subrange(0, i as int));
        }
        r.push(p);
        i += 1;
    }
    assert(v@.subrange(0, v.len() as int) == v@);
    r
}

impl ParseTree {
    /// A deep copy.
    pub fn duplicate(&self) -> (r: ParseTree)
        ensures
            r@ == self@,
        decreases self, 0int,
    {
        match self {
            ParseTree::Element(p) => ParseTree::Element(p.duplicate()),
            ParseTree::List(items) => ParseTree::List(duplicate_trees(items)),
        }
    }
}

/// A deep copy of each tree.
pub fn duplicate_trees(v: &Vec<ParseTree>) -> (r: Vec<ParseTree>)
    ensures
        trees_of(r@) == trees_of(v@),
    decreases v, 1int,
{
    let mut r: Vec<ParseTree> = Vec::new();
    let mut i: usize = 0;
    while i < v.len()
        invariant
            i <= v.len(),
            trees_of(r@) == trees_of(v@.subrange(0, i as int)),
        decreases v.len() - i,
    {
        assert(decreases_to!(v => v@[i as int]));
        let t = v[i].duplicate();
        proof {
            assert(r@.push(t).drop_last() == r@);
            assert(v@.subrange(0, i + 1).drop_last() == v@.subrange(0, i as int));
        }
        r.push(t);
        i += 1;
    }
    assert(v@.subrange(0, v.len() as int) == v@);
    r
}

} // verus!
