use vstd::prelude::*;
use crate::env::{Scope, ScopeView};
use crate::natives::{FloatFolds, call_native, falsy, falsy_value, native_result, truthy, truthy_value};
use crate::types::{
    EvalError, Failure, Native, ParseTree, Primitive, SpecialForm, Tree, Value, lemma_trees_of,
    lemma_values_of, outcome_of, tree_of, trees_of, value_of, values_of,
};

verus! {

broadcast use vstd::std_specs::vec::group_vec_axioms, vstd::seq::group_seq_axioms;

/// How deeply procedure calls may nest in one evaluation.
pub const MAX_CALL_DEPTH: usize = 10_000;

/// The special form that a head symbol names, if any.
pub open spec fn special_form_of(name: Seq<char>) -> Option<SpecialForm> {
    if name == "define"@ {
        Some(SpecialForm::Define)
    } else if name == "lambda"@ {
        Some(SpecialForm::Lambda)
    } else if name == "if"@ {
        Some(SpecialForm::If)
    } else if name == "cond"@ {
        Some(SpecialForm::Cond)
    } else if name == "and"@ {
        Some(SpecialForm::And)
    } else if name == "or"@ {
        Some(SpecialForm::Or)
    } else {
        None
    }
}

pub open spec fn is_symbol_atom(t: Tree) -> bool {
    t matches Tree::Atom(Value::Symbol(_))
}

pub open spec fn symbol_name(t: Tree) -> Seq<char> {
    match t {
        Tree::Atom(Value::Symbol(n)) => n,
        _ => Seq::empty(),
    }
}

pub open spec fn all_symbols(ts: Seq<Tree>) -> bool {
    forall|i: int| 0 <= i < ts.len() ==> #[trigger] is_symbol_atom(ts[i])
}

/// The parameter list that a list of symbol atoms declares.
pub open spec fn parameters(ts: Seq<Tree>) -> Seq<Value> {
    ts.map_values(|t: Tree| Value::Symbol(symbol_name(t)))
}

/// The special form that heads a form, if its head names one.
pub open spec fn head_form(items: Seq<Tree>) -> Option<SpecialForm> {
    if items.len() > 0 && is_symbol_atom(items[0]) {
        special_form_of(symbol_name(items[0]))
    } else {
        None
    }
}

/// `s` with each symbol among `params` bound to the argument in its place.
pub open spec fn bind_params(s: ScopeView, params: Seq<Value>, args: Seq<Value>) -> ScopeView
    decreases params.len(),
{
    if params.len() == 0 {
        s
    } else {
        let inner = bind_params(s, params.drop_last(), args.drop_last());
        match params.last() {
            Value::Symbol(n) => inner.bind(n, args.last()),
            _ => inner,
        }
    }
}

/// Evaluation of `t` against `s`: its value and the scope that follows it.
/// `top` marks a form entered directly, whose definitions persist; `fuel`
/// bounds how deeply procedure calls nest.
pub open spec fn eval(
    floats: &FloatFolds,
    t: Tree,
    s: ScopeView,
    top: bool,
    fuel: nat,
) -> Result<(Value, ScopeView), Failure>
    decreases fuel, t, 0int,
{
    match t {
        Tree::Atom(v) => match v {
            Value::Symbol(n) => if s.variables.contains_key(n) {
                Ok((s.variables[n], s))
            } else {
                Ok((v, s))
            },
            _ => Ok((v, s)),
        },
        Tree::Form(items) => if items.len() == 0 {
            Ok((Value::Tuple(Seq::empty()), s))
        } else if let Some(form) = head_form(items) {
            eval_special(floats, form, items, s, fuel)
        } else {
            eval_ordinary(floats, items, s, top, fuel)
        },
    }
}

/// The special forms. Each returns the scope it was given, but `define`,
/// which adds its binding to it.
pub open spec fn eval_special(
    floats: &FloatFolds,
    form: SpecialForm,
    items: Seq<Tree>,
    s: ScopeView,
    fuel: nat,
) -> Result<(Value, ScopeView), Failure>
    decreases fuel, items, items.len() + 1,
{
    match form {
        SpecialForm::Define => if items.len() != 3 {
            Err(Failure::ArityMismatch(3, items.len()))
        } else {
            match items[1] {
                Tree::Atom(Value::Symbol(name)) => match eval(floats, items[2], s, false, fuel) {
                    Ok((v, _)) => Ok((Value::Symbol(name), s.bind(name, v))),
                    Err(e) => Err(e),
                },
                Tree::Form(sig) => if sig.len() >= 1 && is_symbol_atom(sig[0]) && all_symbols(
                    sig.drop_first(),
                ) {
                    let name = symbol_name(sig[0]);
                    let procedure = Value::Lambda(parameters(sig.drop_first()), Box::new(items[2]));
                    Ok((Value::Symbol(name), s.bind(name, procedure)))
                } else {
                    Err(Failure::MalformedSpecialForm(SpecialForm::Define))
                },
                _ => Err(Failure::MalformedSpecialForm(SpecialForm::Define)),
            }
        },
        SpecialForm::Lambda => if items.len() != 3 {
            Err(Failure::ArityMismatch(3, items.len()))
        } else {
            match items[1] {
                Tree::Form(ps) => if all_symbols(ps) {
                    Ok((Value::Lambda(parameters(ps), Box::new(items[2])), s))
                } else {
                    Err(Failure::MalformedSpecialForm(SpecialForm::Lambda))
                },
                _ => Err(Failure::MalformedSpecialForm(SpecialForm::Lambda)),
            }
        },
        SpecialForm::If => if items.len() != 4 {
            Err(Failure::ArityMismatch(4, items.len()))
        } else {
            match eval(floats, items[1], s, false, fuel) {
                Err(e) => Err(e),
                Ok((p, _)) => if p == Value::Bool(true) {
                    match eval(floats, items[2], s, false, fuel) {
                        Ok((v, _)) => Ok((v, s)),
                        Err(e) => Err(e),
                    }
                } else {
                    match eval(floats, items[3], s, false, fuel) {
                        Ok((v, _)) => Ok((v, s)),
                        Err(e) => Err(e),
                    }
                },
            }
        },
        SpecialForm::Cond => eval_cond(floats, items, 1, s, fuel),
        SpecialForm::And => eval_and(floats, items, 1, Value::Bool(true), s, fuel),
        SpecialForm::Or => eval_or(floats, items, 1, s, fuel),
    }
}

/// `cond` from its clause `i` on.
pub open spec fn eval_cond(
    floats: &FloatFolds,
    items: Seq<Tree>,
    i: nat,
    s: ScopeView,
    fuel: nat,
) -> Result<(Value, ScopeView), Failure>
    decreases fuel, items, items.len() + 1 - i,
{
    if i >= items.len() {
        Ok((Value::Nil, s))
    } else {
        match items[i as int] {
            Tree::Form(clause) => if clause.len() < 2 {
                Err(Failure::MalformedSpecialForm(SpecialForm::Cond))
            } else {
                match eval(floats, clause[0], s, false, fuel) {
                    Err(e) => Err(e),
                    Ok((p, _)) => if p == Value::Bool(true) || p == Value::Symbol("else"@) {
                        match eval(floats, clause[1], s, false, fuel) {
                            Ok((v, _)) => Ok((v, s)),
                            Err(e) => Err(e),
                        }
                    } else {
                        eval_cond(floats, items, i + 1, s, fuel)
                    },
                }
            },
            _ => Err(Failure::MalformedSpecialForm(SpecialForm::Cond)),
        }
    }
}

/// `and` from its operand `i` on, `last` being the value before it.
pub open spec fn eval_and(
    floats: &FloatFolds,
    items: Seq<Tree>,
    i: nat,
    last: Value,
    s: ScopeView,
    fuel: nat,
) -> Result<(Value, ScopeView), Failure>
    decreases fuel, items, items.len() + 1 - i,
{
    if i >= items.len() {
        Ok((last, s))
    } else {
        match eval(floats, items[i as int], s, false, fuel) {
            Err(e) => Err(e),
            Ok((v, _)) => if falsy(v) {
                Ok((Value::Bool(false), s))
            } else {
                eval_and(floats, items, i + 1, v, s, fuel)
            },
        }
    }
}

/// `or` from its operand `i` on.
pub open spec fn eval_or(
    floats: &FloatFolds,
    items: Seq<Tree>,
    i: nat,
    s: ScopeView,
    fuel: nat,
) -> Result<(Value, ScopeView), Failure>
    decreases fuel, items, items.len() + 1 - i,
{
    if i >= items.len() {
        Ok((Value::Nil, s))
    } else {
        match eval(floats, items[i as int], s, false, fuel) {
            Err(e) => Err(e),
            Ok((v, _)) => if truthy(v) {
                Ok((v, s))
            } else {
                eval_or(floats, items, i + 1, s, fuel)
            },
        }
    }
}

/// Each element in turn, not at top level, each against the scope that
/// the one before it left.
pub open spec fn eval_each(
    floats: &FloatFolds,
    items: Seq<Tree>,
    s: ScopeView,
    fuel: nat,
) -> Result<(Seq<Value>, ScopeView), Failure>
    decreases fuel, items, 0int,
{
    if items.len() == 0 {
        Ok((Seq::empty(), s))
    } else {
        match eval_each(floats, items.drop_last(), s, fuel) {
            Err(e) => Err(e),
            Ok((vs, s1)) => match eval(floats, items[items.len() - 1], s1, false, fuel) {
                Err(e) => Err(e),
                Ok((v, s2)) => Ok((vs.push(v), s2)),
            },
        }
    }
}

/// A form whose head names no special form: its elements are evaluated,
/// then a native or a procedure at its head is applied to the rest.
/// Otherwise a form entered at top level gives its last value, and a
/// nested one its only value or the tuple of its values. A nested form
/// keeps none of the bindings made inside it.
pub open spec fn eval_ordinary(
    floats: &FloatFolds,
    items: Seq<Tree>,
    s: ScopeView,
    top: bool,
    fuel: nat,
) -> Result<(Value, ScopeView), Failure>
    decreases fuel, items, 1int,
{
    match eval_each(floats, items, s, fuel) {
        Err(e) => Err(e),
        Ok((vs, s1)) => {
            let kept = if top {
                s1
            } else {
                s
            };
            let args = vs.drop_first();
            if vs[0] is Symbol && s1.natives.contains_key(vs[0]->Symbol_0) {
                match native_result(floats, s1.natives[vs[0]->Symbol_0], args) {
                    Ok(v) => Ok((v, kept)),
                    Err(e) => Err(e),
                }
            } else if vs[0] is Lambda && args.len() > 0 {
                if fuel == 0 {
                    Err(Failure::RecursionLimit)
                } else {
                    match applied(
                        floats,
                        vs[0]->Lambda_0,
                        args,
                        *vs[0]->Lambda_1,
                        s1,
                        (fuel - 1) as nat,
                    ) {
                        Ok(v) => Ok((v, kept)),
                        Err(e) => Err(e),
                    }
                }
            } else if top {
                Ok((vs.last(), s1))
            } else if vs.len() == 1 {
                Ok((vs[0], s))
            } else {
                Ok((Value::Tuple(vs), s))
            }
        },
    }
}

/// A procedure applied to arguments: its body evaluated, not at top level,
/// in the caller's scope with the parameters bound.
pub open spec fn applied(
    floats: &FloatFolds,
    params: Seq<Value>,
    args: Seq<Value>,
    body: Tree,
    s: ScopeView,
    fuel: nat,
) -> Result<Value, Failure>
    decreases fuel, body, 1int,
{
    if params.len() != args.len() {
        Err(Failure::ArityMismatch(params.len(), args.len()))
    } else {
        match eval(floats, body, bind_params(s, params, args), false, fuel) {
            Ok((v, _)) => Ok(v),
            Err(e) => Err(e),
        }
    }
}

/// The scope after a step that left `change`: the one it was given when
/// `change` is `None`.
pub open spec fn scope_after(s: ScopeView, change: Option<Scope>) -> ScopeView {
    match change {
        Some(x) => x@,
        None => s,
    }
}

/// The model of a step's result against the scope it was given.
pub open spec fn step_outcome(r: Result<(Primitive, Option<Scope>), EvalError>, s: ScopeView) -> Result<
    (Value, ScopeView),
    Failure,
> {
    match r {
        Ok((p, change)) => Ok((p@, scope_after(s, change))),
        Err(e) => Err(e@),
    }
}

/// Whether two strings hold the same characters.
fn same_text(a: &str, b: &str) -> (r: bool)
    ensures
        r == (a@ == b@),
{
    let n = a.unicode_len();
    if n != b.unicode_len() {
        return false;
    }
    let mut i: usize = 0;
    while i < n
        invariant
            i <= n,
            n == a@.len(),
            n == b@.len(),
            forall|j: int| 0 <= j < i ==> a@[j] == b@[j],
        decreases n - i,
    {
        if a.get_char(i) != b.get_char(i) {
            return false;
        }
        i += 1;
    }
    assert(a@ =~= b@);
    true
}

fn special_form_named(name: &String) -> (r: Option<SpecialForm>)
    ensures
        r == special_form_of(name@),
{
    let n = name.as_str();
    if same_text(n, "define") {
        Some(SpecialForm::Define)
    } else if same_text(n, "lambda") {
        Some(SpecialForm::Lambda)
    } else if same_text(n, "if") {
        Some(SpecialForm::If)
    } else if same_text(n, "cond") {
        Some(SpecialForm::Cond)
    } else if same_text(n, "and") {
        Some(SpecialForm::And)
    } else if same_text(n, "or") {
        Some(SpecialForm::Or)
    } else {
        None
    }
}

fn head_special(items: &Vec<ParseTree>) -> (r: Option<SpecialForm>)
    ensures
        r == head_form(trees_of(items@)),
{
    proof {
        lemma_trees_of(items@);
    }
    if items.len() == 0 {
        return None;
    }
    match &items[0] {
        ParseTree::Element(Primitive::Identifier(n)) => special_form_named(n),
        _ => None,
    }
}

/// The parameters that `ts[from..]` declares, if each of them is a symbol.
fn symbol_params(ts: &Vec<ParseTree>, from: usize) -> (r: Option<Vec<Primitive>>)
    requires
        from <= ts.len(),
    ensures
        r is Some <==> all_symbols(trees_of(ts@).subrange(from as int, ts.len() as int)),
        r matches Some(ps) ==> values_of(ps@) == parameters(
            trees_of(ts@).subrange(from as int, ts.len() as int),
        ),
{
    let ghost all = trees_of(ts@);
    proof {
        lemma_trees_of(ts@);
    }
    let mut out: Vec<Primitive> = Vec::new();
    let mut j: usize = from;
    while j < ts.len()
        invariant
            from <= j <= ts.len(),
            all == trees_of(ts@),
            all.len() == ts.len(),
            forall|k: int| 0 <= k < ts.len() ==> #[trigger] all[k] == tree_of(ts@[k]),
            all_symbols(all.subrange(from as int, j as int)),
            values_of(out@) == parameters(all.subrange(from as int, j as int)),
        decreases ts.len() - j,
    {
        match &ts[j] {
            ParseTree::Element(Primitive::Identifier(n)) => {
                let ghost before = out@;
                out.push(Primitive::Identifier(n.clone()));
                proof {
                    assert(out@.drop_last() == before);
                    let grown = all.subrange(from as int, j + 1);
                    assert(grown.drop_last() =~= all.subrange(from as int, j as int));
                    assert(parameters(grown) =~= parameters(all.subrange(from as int, j as int)).push(
                        Value::Symbol(n@),
                    ));
                    assert forall|k: int| 0 <= k < grown.len() implies #[trigger] is_symbol_atom(
                        grown[k],
                    ) by {
                        if k < grown.len() - 1 {
                            assert(grown[k] == all.subrange(from as int, j as int)[k]);
                        }
                    }
                }
            },
            _ => {
                proof {
                    let rest = all.subrange(from as int, ts.len() as int);
                    assert(rest[j - from] == all[j as int]);
                    assert(!is_symbol_atom(rest[j - from]));
                }
                return None;
            },
        }
        j += 1;
    }
    Some(out)
}

proof fn lemma_eval_each_err(
    floats: &FloatFolds,
    ts: Seq<Tree>,
    k: int,
    m: int,
    s: ScopeView,
    fuel: nat,
)
    requires
        0 <= k <= m <= ts.len(),
        eval_each(floats, ts.subrange(0, k), s, fuel) is Err,
    ensures
        eval_each(floats, ts.subrange(0, m), s, fuel) == eval_each(floats, ts.subrange(0, k), s, fuel),
    decreases m - k,
{
    if m > k {
        lemma_eval_each_err(floats, ts, k, m - 1, s, fuel);
        assert(ts.subrange(0, m).drop_last() =~= ts.subrange(0, m - 1));
    }
}

/// Evaluates `t` against `scope`. A result with `Some` scope is the scope
/// the step left; `None` means that it left `scope` as it was.
fn eval_node(
    t: &ParseTree,
    scope: &Scope,
    top: bool,
    fuel: usize,
    floats: &FloatFolds,
) -> (r: Result<(Primitive, Option<Scope>), EvalError>)
    ensures
        step_outcome(r, scope@) == eval(floats, t@, scope@, top, fuel as nat),
    decreases fuel, t, 0int,
{
    match t {
        ParseTree::Element(p) => match p {
            Primitive::Identifier(n) => match scope.variable(n) {
                Some(v) => Ok((v.duplicate(), None)),
                None => Ok((Primitive::Identifier(n.clone()), None)),
            },
            _ => Ok((p.duplicate(), None)),
        },
        ParseTree::List(items) => {
            if items.len() == 0 {
                let empty: Vec<Primitive> = Vec::new();
                assert(values_of(empty@) =~= Seq::<Value>::empty());
                assert(trees_of(items@).len() == 0);
                return Ok((Primitive::Tuple(empty), None));
            }
            proof {
                lemma_trees_of(items@);
            }
            match head_special(items) {
                Some(form) => special(form, items, scope, fuel, floats),
                None => ordinary(items, scope, top, fuel, floats),
            }
        },
    }
}

/// The special forms.
fn special(
    form: SpecialForm,
    items: &Vec<ParseTree>,
    scope: &Scope,
    fuel: usize,
    floats: &FloatFolds,
) -> (r: Result<(Primitive, Option<Scope>), EvalError>)
    ensures
        step_outcome(r, scope@) == eval_special(floats, form, trees_of(items@), scope@, fuel as nat),
    decreases fuel, items, 2int,
{
    proof {
        lemma_trees_of(items@);
    }
    match form {
        SpecialForm::Define => {
            if items.len() != 3 {
                return Err(EvalError::ArityMismatch { expected: 3, found: items.len() });
            }
            match &items[1] {
                ParseTree::Element(Primitive::Identifier(name)) => {
                    match eval_node(&items[2], scope, false, fuel, floats) {
                        Err(e) => Err(e),
                        Ok((v, _)) => {
                            let mut bound = scope.duplicate();
                            bound.set_variable(name.clone(), v);
                            Ok((Primitive::Identifier(name.clone()), Some(bound)))
                        },
                    }
                },
                ParseTree::List(sig) => define_procedure(sig, &items[2], scope),
                _ => Err(EvalError::MalformedSpecialForm { form: SpecialForm::Define }),
            }
        },
        SpecialForm::Lambda => {
            if items.len() != 3 {
                return Err(EvalError::ArityMismatch { expected: 3, found: items.len() });
            }
            match &items[1] {
                ParseTree::List(ps) => {
                    assert(trees_of(ps@).subrange(0, ps.len() as int) =~= trees_of(ps@)) by {
                        lemma_trees_of(ps@);
                    }
                    match define_lambda(ps, 0, &items[2]) {
                    Some(procedure) => Ok((procedure, None)),
                    None => Err(EvalError::MalformedSpecialForm { form: SpecialForm::Lambda }),
                    }
                },
                _ => Err(EvalError::MalformedSpecialForm { form: SpecialForm::Lambda }),
            }
        },
        SpecialForm::If => {
            if items.len() != 4 {
                return Err(EvalError::ArityMismatch { expected: 4, found: items.len() });
            }
            match eval_node(&items[1], scope, false, fuel, floats) {
                Err(e) => Err(e),
                Ok((p, _)) => {
                    let branch: usize = if matches!(p, Primitive::Bool(true)) {
                        2
                    } else {
                        3
                    };
                    match eval_node(&items[branch], scope, false, fuel, floats) {
                        Ok((v, _)) => Ok((v, None)),
                        Err(e) => Err(e),
                    }
                },
            }
        },
        SpecialForm::Cond => cond_form(items, scope, fuel, floats),
        SpecialForm::And => and_form(items, scope, fuel, floats),
        SpecialForm::Or => or_form(items, scope, fuel, floats),
    }
}

/// The procedure that `ts[from..]` and `body` declare, if each parameter is
/// a symbol.
fn define_lambda(ts: &Vec<ParseTree>, from: usize, body: &ParseTree) -> (r: Option<Primitive>)
    requires
        from <= ts.len(),
    ensures
        r is Some <==> all_symbols(trees_of(ts@).subrange(from as int, ts.len() as int)),
        r matches Some(p) ==> p@ == Value::Lambda(
            parameters(trees_of(ts@).subrange(from as int, ts.len() as int)),
            Box::new(body@),
        ),
{
    match symbol_params(ts, from) {
        Some(params) => Some(Primitive::Lambda(params, Box::new(body.duplicate()))),
        None => None,
    }
}

/// `(define (name p1 p2 ...) body)`: binds `name` to the procedure.
fn define_procedure(sig: &Vec<ParseTree>, body: &ParseTree, scope: &Scope) -> (r: Result<
    (Primitive, Option<Scope>),
    EvalError,
>)
    ensures
        step_outcome(r, scope@) == ({
            let sig_t = trees_of(sig@);
            if sig_t.len() >= 1 && is_symbol_atom(sig_t[0]) && all_symbols(sig_t.drop_first()) {
                let name = symbol_name(sig_t[0]);
                let procedure = Value::Lambda(parameters(sig_t.drop_first()), Box::new(body@));
                Ok((Value::Symbol(name), scope@.bind(name, procedure)))
            } else {
                Err(Failure::MalformedSpecialForm(SpecialForm::Define))
            }
        }),
{
    proof {
        lemma_trees_of(sig@);
    }
    if sig.len() >= 1 {
        if let ParseTree::Element(Primitive::Identifier(name)) = &sig[0] {
            if let Some(procedure) = define_lambda(sig, 1, body) {
                let mut bound = scope.duplicate();
                bound.set_variable(name.clone(), procedure);
                return Ok((Primitive::Identifier(name.clone()), Some(bound)));
            }
        }
    }
    Err(EvalError::MalformedSpecialForm { form: SpecialForm::Define })
}

fn cond_form(items: &Vec<ParseTree>, scope: &Scope, fuel: usize, floats: &FloatFolds) -> (r:
    Result<(Primitive, Option<Scope>), EvalError>)
    ensures
        step_outcome(r, scope@) == eval_cond(floats, trees_of(items@), 1, scope@, fuel as nat),
    decreases fuel, items, 1int,
{
    let ghost ts = trees_of(items@);
    proof {
        lemma_trees_of(items@);
    }
    let mut i: usize = 1;
    while i < items.len()
        invariant
            1 <= i,
            ts == trees_of(items@),
            ts.len() == items.len(),
            forall|k: int| 0 <= k < items.len() ==> #[trigger] ts[k] == tree_of(items@[k]),
            eval_cond(floats, ts, 1, scope@, fuel as nat) == eval_cond(
                floats,
                ts,
                i as nat,
                scope@,
                fuel as nat,
            ),
        decreases items.len() - i,
    {
        match &items[i] {
            ParseTree::List(clause) => {
                proof {
                    lemma_trees_of(clause@);
                }
                if clause.len() < 2 {
                    return Err(EvalError::MalformedSpecialForm { form: SpecialForm::Cond });
                }
                assert(decreases_to!(items => clause@[0]));
                match eval_node(&clause[0], scope, false, fuel, floats) {
                    Err(e) => {
                        return Err(e);
                    },
                    Ok((p, _)) => {
                        let chosen = match &p {
                            Primitive::Bool(b) => *b,
                            Primitive::Identifier(n) => same_text(n.as_str(), "else"),
                            _ => false,
                        };
                        if chosen {
                            assert(decreases_to!(items => clause@[1]));
                            return match eval_node(&clause[1], scope, false, fuel, floats) {
                                Ok((v, _)) => Ok((v, None)),
                                Err(e) => Err(e),
                            };
                        }
                    },
                }
            },
            _ => {
                return Err(EvalError::MalformedSpecialForm { form: SpecialForm::Cond });
            },
        }
        i += 1;
    }
    Ok((Primitive::Nil, None))
}

fn and_form(items: &Vec<ParseTree>, scope: &Scope, fuel: usize, floats: &FloatFolds) -> (r:
    Result<(Primitive, Option<Scope>), EvalError>)
    ensures
        step_outcome(r, scope@) == eval_and(
            floats,
            trees_of(items@),
            1,
            Value::Bool(true),
            scope@,
            fuel as nat,
        ),
    decreases fuel, items, 1int,
{
    let ghost ts = trees_of(items@);
    proof {
        lemma_trees_of(items@);
    }
    let mut last = Primitive::Bool(true);
    let mut i: usize = 1;
    while i < items.len()
        invariant
            1 <= i,
            ts == trees_of(items@),
            ts.len() == items.len(),
            forall|k: int| 0 <= k < items.len() ==> #[trigger] ts[k] == tree_of(items@[k]),
            eval_and(floats, ts, 1, Value::Bool(true), scope@, fuel as nat) == eval_and(
                floats,
                ts,
                i as nat,
                last@,
                scope@,
                fuel as nat,
            ),
        decreases items.len() - i,
    {
        match eval_node(&items[i], scope, false, fuel, floats) {
            Err(e) => {
                return Err(e);
            },
            Ok((v, _)) => {
                if falsy_value(&v) {
                    return Ok((Primitive::Bool(false), None));
                }
                last = v;
            },
        }
        i += 1;
    }
    Ok((last, None))
}

fn or_form(items: &Vec<ParseTree>, scope: &Scope, fuel: usize, floats: &FloatFolds) -> (r:
    Result<(Primitive, Option<Scope>), EvalError>)
    ensures
        step_outcome(r, scope@) == eval_or(floats, trees_of(items@), 1, scope@, fuel as nat),
    decreases fuel, items, 1int,
{
    let ghost ts = trees_of(items@);
    proof {
        lemma_trees_of(items@);
    }
    let mut i: usize = 1;
    while i < items.len()
        invariant
            1 <= i,
            ts == trees_of(items@),
            ts.len() == items.len(),
            forall|k: int| 0 <= k < items.len() ==> #[trigger] ts[k] == tree_of(items@[k]),
            eval_or(floats, ts, 1, scope@, fuel as nat) == eval_or(
                floats,
                ts,
                i as nat,
                scope@,
                fuel as nat,
            ),
        decreases items.len() - i,
    {
        match eval_node(&items[i], scope, false, fuel, floats) {
            Err(e) => {
                return Err(e);
            },
            Ok((v, _)) => {
                if truthy_value(&v) {
                    return Ok((v, None));
                }
            },
        }
        i += 1;
    }
    Ok((Primitive::Nil, None))
}

/// Evaluates each element in turn, each against the scope that the one
/// before it left.
fn flatten_tree(
    items: &Vec<ParseTree>,
    scope: &Scope,
    fuel: usize,
    floats: &FloatFolds,
) -> (r: Result<(Vec<Primitive>, Option<Scope>), EvalError>)
    ensures
        match eval_each(floats, trees_of(items@), scope@, fuel as nat) {
            Ok((vs, s2)) => r matches Ok((ps, change)) && values_of(ps@) == vs && scope_after(
                scope@,
                change,
            ) == s2 && ps.len() == items.len(),
            Err(e) => r matches Err(x) && x@ == e,
        },
    decreases fuel, items, 1int,
{
    let ghost ts = trees_of(items@);
    proof {
        lemma_trees_of(items@);
        assert(ts.subrange(0, 0).len() == 0);
        assert(values_of(Seq::<Primitive>::empty()) =~= Seq::<Value>::empty());
    }
    let mut results: Vec<Primitive> = Vec::new();
    let mut working: Option<Scope> = None;
    let mut i: usize = 0;
    while i < items.len()
        invariant
            i <= items.len(),
            ts == trees_of(items@),
            ts.len() == items.len(),
            forall|k: int| 0 <= k < items.len() ==> #[trigger] ts[k] == tree_of(items@[k]),
            results.len() == i,
            eval_each(floats, ts.subrange(0, i as int), scope@, fuel as nat) == Ok::<
                (Seq<Value>, ScopeView),
                Failure,
            >((values_of(results@), scope_after(scope@, working))),
        decreases items.len() - i,
    {
        let step = match &working {
            Some(w) => eval_node(&items[i], w, false, fuel, floats),
            None => eval_node(&items[i], scope, false, fuel, floats),
        };
        proof {
            assert(ts.subrange(0, i + 1).drop_last() =~= ts.subrange(0, i as int));
            assert(ts.subrange(0, i + 1)[i as int] == ts[i as int]);
        }
        match step {
            Err(e) => {
                proof {
                    lemma_eval_each_err(floats, ts, i + 1, ts.len() as int, scope@, fuel as nat);
                    assert(ts.subrange(0, ts.len() as int) =~= ts);
                }
                return Err(e);
            },
            Ok((v, change)) => {
                let ghost before = results@;
                results.push(v);
                proof {
                    assert(results@.drop_last() == before);
                }
                if let Some(s2) = change {
                    working = Some(s2);
                }
            },
        }
        i += 1;
    }
    assert(ts.subrange(0, ts.len() as int) =~= ts);
    Ok((results, working))
}

/// A form whose head names no special form.
fn ordinary(
    items: &Vec<ParseTree>,
    scope: &Scope,
    top: bool,
    fuel: usize,
    floats: &FloatFolds,
) -> (r: Result<(Primitive, Option<Scope>), EvalError>)
    requires
        items.len() > 0,
    ensures
        step_outcome(r, scope@) == eval_ordinary(floats, trees_of(items@), scope@, top, fuel as nat),
    decreases fuel, items, 2int,
{
    let (mut results, working) = match flatten_tree(items, scope, fuel, floats) {
        Err(e) => {
            return Err(e);
        },
        Ok(x) => x,
    };
    proof {
        lemma_values_of(results@);
    }
    let ghost vs = values_of(results@);
    let ghost s1 = scope_after(scope@, working);
    let native_op: Option<Native> = match &results[0] {
        Primitive::Identifier(n) => match &working {
            Some(w) => w.native(n),
            None => scope.native(n),
        },
        _ => None,
    };
    if let Some(op) = native_op {
        let args = results.split_off(1);
        proof {
            lemma_values_of(args@);
            assert(values_of(args@) =~= vs.drop_first());
        }
        let kept = if top {
            working
        } else {
            None
        };
        return match call_native(op, &args, floats) {
            Ok(v) => Ok((v, kept)),
            Err(e) => Err(e),
        };
    }
    if results.len() > 1 && matches!(&results[0], Primitive::Lambda(_, _)) {
        if fuel == 0 {
            return Err(EvalError::RecursionLimit);
        }
        let args = results.split_off(1);
        proof {
            lemma_values_of(args@);
            assert(values_of(args@) =~= vs.drop_first());
        }
        let outcome = match results.pop() {
            Some(Primitive::Lambda(params, body)) => {
                let b: &ParseTree = &body;
                match &working {
                    Some(w) => apply(&params, &args, b, w, fuel - 1, floats),
                    None => apply(&params, &args, b, scope, fuel - 1, floats),
                }
            },
            _ => {
                proof {
                    assert(false);
                }
                Err(EvalError::RecursionLimit)
            },
        };
        let kept = if top {
            working
        } else {
            None
        };
        return match outcome {
            Ok(v) => Ok((v, kept)),
            Err(e) => Err(e),
        };
    }
    if top {
        let last = results.pop();
        return match last {
            Some(v) => Ok((v, working)),
            None => Ok((Primitive::Nil, working)),
        };
    }
    if results.len() == 1 {
        match results.pop() {
            Some(v) => Ok((v, None)),
            None => Ok((Primitive::Nil, None)),
        }
    } else {
        Ok((Primitive::Tuple(results), None))
    }
}

/// Applies a procedure: binds each parameter to its argument in a copy of
/// the caller's scope and evaluates the body there; the copy is dropped.
fn apply(
    params: &Vec<Primitive>,
    args: &Vec<Primitive>,
    body: &ParseTree,
    scope: &Scope,
    fuel: usize,
    floats: &FloatFolds,
) -> (r: Result<Primitive, EvalError>)
    ensures
        outcome_of(r) == applied(floats, values_of(params@), values_of(args@), body@, scope@, fuel as nat),
    decreases fuel, body, 1int,
{
    proof {
        lemma_values_of(params@);
        lemma_values_of(args@);
    }
    if params.len() != args.len() {
        return Err(EvalError::ArityMismatch { expected: params.len(), found: args.len() });
    }
    let ghost ps = values_of(params@);
    let ghost xs = values_of(args@);
    let mut local = scope.duplicate();
    let mut i: usize = 0;
    proof {
        assert(ps.subrange(0, 0).len() == 0);
    }
    while i < params.len()
        invariant
            i <= params.len(),
            params.len() == args.len(),
            ps == values_of(params@),
            xs == values_of(args@),
            ps.len() == params.len(),
            xs.len() == args.len(),
            forall|k: int| 0 <= k < params.len() ==> #[trigger] ps[k] == value_of(params@[k]),
            forall|k: int| 0 <= k < args.len() ==> #[trigger] xs[k] == value_of(args@[k]),
            local@ == bind_params(scope@, ps.subrange(0, i as int), xs.subrange(0, i as int)),
        decreases params.len() - i,
    {
        proof {
            assert(ps.subrange(0, i + 1).drop_last() =~= ps.subrange(0, i as int));
            assert(xs.subrange(0, i + 1).drop_last() =~= xs.subrange(0, i as int));
        }
        if let Primitive::Identifier(n) = &params[i] {
            local.set_variable(n.clone(), args[i].duplicate());
        }
        i += 1;
    }
    proof {
        assert(ps.subrange(0, ps.len() as int) =~= ps);
        assert(xs.subrange(0, xs.len() as int) =~= xs);
    }
    match eval_node(body, &local, false, fuel, floats) {
        Ok((v, _)) => Ok(v),
        Err(e) => Err(e),
    }
}

/// Evaluates `input` against `scope`, with procedure calls nested at most
/// `MAX_CALL_DEPTH` deep. `global` marks a form entered directly, whose
/// definitions persist into the scope returned. On an error the scope
/// returned is the one given; where the error is `FloatFoldNeeded`, record
/// that fold in `floats` and evaluate again.
pub fn interpret(input: ParseTree, scope: Scope, global: bool, floats: &FloatFolds) -> (r: (
    Result<Primitive, EvalError>,
    Scope,
))
    ensures
        match eval(floats, input@, scope@, global, MAX_CALL_DEPTH as nat) {
            Ok((v, s2)) => r.0 matches Ok(p) && p@ == v && r.1@ == s2,
            Err(e) => r.0 matches Err(x) && x@ == e && r.1@ == scope@,
        },
{
    interpret_with_depth(input, scope, global, floats, MAX_CALL_DEPTH)
}

/// `interpret` with procedure calls nested at most `max_depth` deep.
pub fn interpret_with_depth(
    input: ParseTree,
    scope: Scope,
    global: bool,
    floats: &FloatFolds,
    max_depth: usize,
) -> (r: (Result<Primitive, EvalError>, Scope))
    ensures
        match eval(floats, input@, scope@, global, max_depth as nat) {
            Ok((v, s2)) => r.0 matches Ok(p) && p@ == v && r.1@ == s2,
            Err(e) => r.0 matches Err(x) && x@ == e && r.1@ == scope@,
        },
{
    match eval_node(&input, &scope, global, max_depth, floats) {
        Ok((v, Some(next))) => (Ok(v), next),
        Ok((v, None)) => (Ok(v), scope),
        Err(e) => (Err(e), scope),
    }
}

} // verus!
