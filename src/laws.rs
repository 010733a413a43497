use vstd::prelude::*;
use crate::env::ScopeView;
use crate::interpreter::{
    eval, eval_and, eval_cond, eval_each, eval_or, eval_special, head_form, special_form_of,
};
use crate::number::{
    digit_value, digits_value, exponent_start, has_point, int_literal_value, is_digit,
    is_float_literal, magnitude, pow10, unsigned_part, valid_mantissa,
};
use crate::natives::{
    FloatFolds, clamp_i32, first_non_number, has_float, is_number, native_result, recorded_fold,
};
use crate::parser::{
    add_to_top, classify, close_all, is_paren, is_space, read, read_token, read_tokens, scan,
    tokens_of,
};
use crate::types::{Failure, Native, SpecialForm, Tree, Value};

verus! {

broadcast use vstd::seq::group_seq_axioms;

proof fn lemma_scan_plain(s: Seq<char>, current: Seq<char>)
    requires
        forall|i: int| 0 <= i < s.len() ==> !is_paren(#[trigger] s[i]) && !is_space(s[i]),
    ensures
        scan(s, current) == (if current.len() + s.len() == 0 {
            Seq::<Seq<char>>::empty()
        } else {
            seq![current + s]
        }),
    decreases s.len(),
{
    if s.len() == 0 {
        assert(current + s =~= current);
    } else {
        let rest = s.drop_first();
        assert forall|i: int| 0 <= i < rest.len() implies !is_paren(#[trigger] rest[i]) && !is_space(
            rest[i],
        ) by {
            assert(rest[i] == s[i + 1]);
        }
        assert(!is_paren(s[0]) && !is_space(s[0]));
        lemma_scan_plain(rest, current.push(s[0]));
        assert(current.push(s[0]) + rest =~= current + s);
    }
}

/// A lexeme read on its own, with no whitespace or parenthesis in it,
/// reads as a single leaf holding the value it classifies as.
pub proof fn law_literal_round_trip(t: Seq<char>)
    requires
        t.len() > 0,
        forall|i: int| 0 <= i < t.len() ==> !is_paren(#[trigger] t[i]) && !is_space(t[i]),
    ensures
        read(t) == Tree::Form(seq![Tree::Atom(classify(t))]),
{
    lemma_scan_plain(t, Seq::empty());
    assert(Seq::<char>::empty() + t =~= t);
    let toks = tokens_of(t);
    assert(toks == seq![t]);
    assert(toks.drop_last() =~= Seq::<Seq<char>>::empty());
    assert(t != seq!['(']) by {
        assert(!is_paren(t[0]));
    }
    assert(t != seq![')']) by {
        assert(!is_paren(t[0]));
    }
    let start = seq![Seq::<Tree>::empty()];
    assert(read_tokens(toks.drop_last()) == start);
    let leaf = Tree::Atom(classify(t));
    assert(read_token(start, t) == add_to_top(start, leaf));
    assert(add_to_top(start, leaf) =~= seq![seq![leaf]]);
    assert(read_tokens(toks) == seq![seq![leaf]]);
    assert(close_all(seq![seq![leaf]]) == seq![leaf]);
}

pub open spec fn digit_char(d: nat) -> char {
    if d == 0 {
        '0'
    } else if d == 1 {
        '1'
    } else if d == 2 {
        '2'
    } else if d == 3 {
        '3'
    } else if d == 4 {
        '4'
    } else if d == 5 {
        '5'
    } else if d == 6 {
        '6'
    } else if d == 7 {
        '7'
    } else if d == 8 {
        '8'
    } else {
        '9'
    }
}

/// The decimal digits of `m`, without leading zeros.
pub open spec fn decimal_digits(m: nat) -> Seq<char>
    decreases m,
{
    if m < 10 {
        seq![digit_char(m)]
    } else {
        decimal_digits(m / 10).push(digit_char(m % 10))
    }
}

/// The decimal text of an integer, as `i32`'s `to_string` writes it.
pub open spec fn integer_text(n: i32) -> Seq<char> {
    if n < 0 {
        seq!['-'] + decimal_digits((-n) as nat)
    } else {
        decimal_digits(n as nat)
    }
}

proof fn lemma_decimal_digits(m: nat)
    ensures
        decimal_digits(m).len() > 0,
        forall|i: int| 0 <= i < decimal_digits(m).len() ==> is_digit(#[trigger] decimal_digits(m)[i]),
        digits_value(decimal_digits(m)) == m,
    decreases m,
{
    let ds = decimal_digits(m);
    if m < 10 {
        assert(ds.drop_last() =~= Seq::<char>::empty());
        assert(digit_value(digit_char(m)) == m && is_digit(digit_char(m)));
        assert(digits_value(ds) == digits_value(ds.drop_last()) * 10 + digit_value(ds.last()));
    } else {
        lemma_decimal_digits(m / 10);
        let d = m % 10;
        assert(digit_value(digit_char(d)) == d && is_digit(digit_char(d)));
        assert(ds.drop_last() =~= decimal_digits(m / 10));
        assert(ds.last() == digit_char(d));
        assert(digits_value(ds) == digits_value(ds.drop_last()) * 10 + digit_value(ds.last()));
        assert(m == (m / 10) * 10 + m % 10) by (nonlinear_arith);
        assert forall|i: int| 0 <= i < ds.len() implies is_digit(#[trigger] ds[i]) by {
            if i < ds.len() - 1 {
                assert(ds[i] == decimal_digits(m / 10)[i]);
            }
        }
    }
}

proof fn lemma_exponent_start_digits(u: Seq<char>)
    requires
        forall|i: int| 0 <= i < u.len() ==> is_digit(#[trigger] u[i]),
    ensures
        exponent_start(u) == u.len(),
    decreases u.len(),
{
    if u.len() > 0 {
        let rest = u.drop_first();
        assert forall|i: int| 0 <= i < rest.len() implies is_digit(#[trigger] rest[i]) by {
            assert(rest[i] == u[i + 1]);
        }
        assert(is_digit(u[0]));
        lemma_exponent_start_digits(rest);
    }
}

proof fn lemma_exponent_start_bound(u: Seq<char>)
    ensures
        exponent_start(u) <= u.len(),
    decreases u.len(),
{
    if u.len() > 0 {
        lemma_exponent_start_bound(u.drop_first());
    }
}

/// The decimal text of any `i32`, read on its own, reads back as that
/// integer.
pub proof fn law_integer_round_trip(n: i32)
    ensures
        read(integer_text(n)) == Tree::Form(seq![Tree::Atom(Value::Int(n))]),
{
    let m: nat = if n < 0 {
        (-n) as nat
    } else {
        n as nat
    };
    let u = decimal_digits(m);
    let t = integer_text(n);
    lemma_decimal_digits(m);
    lemma_exponent_start_digits(u);
    assert(unsigned_part(t) =~= u);
    assert(u.subrange(0, u.len() as int) =~= u);
    assert(is_digit(u[0]));
    assert(valid_mantissa(u));
    assert(is_float_literal(t));
    assert forall|i: int| 0 <= i < t.len() implies #[trigger] t[i] != '.' && !is_paren(t[i])
        && !is_space(t[i]) by {
        if n < 0 && i > 0 {
            assert(t[i] == u[i - 1]);
        } else if n >= 0 {
            assert(t[i] == u[i]);
        }
    }
    assert(!has_point(t));
    assert(pow10(0) == 1);
    assert(digits_value(u.subrange(0, exponent_start(u) as int)) == m);
    assert(m * pow10(0) == m);
    assert(magnitude(u) == m);
    assert(int_literal_value(t) == n);
    law_literal_round_trip(t);
}

/// A quoted lexeme, read on its own, reads back as the string between its
/// quotes.
pub proof fn law_string_round_trip(s: Seq<char>)
    requires
        forall|i: int| 0 <= i < s.len() ==> !is_paren(#[trigger] s[i]) && !is_space(s[i]),
    ensures
        read(seq!['"'] + s + seq!['"']) == Tree::Form(seq![Tree::Atom(Value::Str(s))]),
{
    let t = seq!['"'] + s + seq!['"'];
    assert forall|i: int| 0 <= i < t.len() implies !is_paren(#[trigger] t[i]) && !is_space(t[i]) by {
        if 0 < i < t.len() - 1 {
            assert(t[i] == s[i - 1]);
        }
    }
    assert(unsigned_part(t) == t);
    assert(t[0] == '"');
    assert(exponent_start(t) == 1 + exponent_start(t.drop_first()));
    lemma_exponent_start_bound(t.drop_first());
    let p = exponent_start(t);
    assert(t.subrange(0, p as int)[0] == '"');
    assert(!valid_mantissa(t.subrange(0, p as int)));
    assert(!is_float_literal(t));
    assert(t.subrange(1, t.len() - 1) =~= s);
    law_literal_round_trip(t);
}

/// `+` of no operands is 0 and `*` of no operands is 1.
pub proof fn law_arithmetic_identity(floats: &FloatFolds)
    ensures
        native_result(floats, Native::Add, Seq::empty()) == Ok::<Value, Failure>(
            Value::Int(0),
        ),
        native_result(floats, Native::Multiply, Seq::empty()) == Ok::<Value, Failure>(
            Value::Int(1),
        ),
{
    reveal_with_fuel(first_non_number, 1);
}

/// Where a float is among the numeric operands of `+`, `-` or `*`, the
/// result is the float that the binary64 fold gives, never an integer.
pub proof fn law_float_promotion(floats: &FloatFolds, op: Native, args: Seq<Value>)
    requires
        op is Add || op is Subtract || op is Multiply,
        forall|i: int| 0 <= i < args.len() ==> is_number(#[trigger] args[i]),
        has_float(args),
    ensures
        native_result(floats, op, args) == match recorded_fold(floats@, op, args) {
            Some(text) => Ok(Value::Float(text)),
            None => Err(Failure::FloatFoldNeeded(op, args)),
        },
{
    lemma_all_numbers(args);
}

proof fn lemma_all_numbers(args: Seq<Value>)
    requires
        forall|i: int| 0 <= i < args.len() ==> is_number(#[trigger] args[i]),
    ensures
        first_non_number(args) is None,
    decreases args.len(),
{
    if args.len() > 0 {
        let rest = args.drop_first();
        assert forall|i: int| 0 <= i < rest.len() implies is_number(#[trigger] rest[i]) by {
            assert(rest[i] == args[i + 1]);
        }
        assert(is_number(args[0]));
        lemma_all_numbers(rest);
    }
}

proof fn lemma_cond_keeps_scope(
    floats: &FloatFolds,
    items: Seq<Tree>,
    i: nat,
    s: ScopeView,
    fuel: nat,
)
    ensures
        eval_cond(floats, items, i, s, fuel) matches Ok((_, s2)) ==> s2 == s,
    decreases items.len() - i,
{
    if i < items.len() {
        lemma_cond_keeps_scope(floats, items, i + 1, s, fuel);
    }
}

proof fn lemma_and_keeps_scope(
    floats: &FloatFolds,
    items: Seq<Tree>,
    i: nat,
    last: Value,
    s: ScopeView,
    fuel: nat,
)
    ensures
        eval_and(floats, items, i, last, s, fuel) matches Ok((_, s2)) ==> s2 == s,
    decreases items.len() - i,
{
    if i < items.len() {
        match eval(floats, items[i as int], s, false, fuel) {
            Ok((v, _)) => lemma_and_keeps_scope(floats, items, i + 1, v, s, fuel),
            Err(_) => {},
        }
    }
}

proof fn lemma_or_keeps_scope(
    floats: &FloatFolds,
    items: Seq<Tree>,
    i: nat,
    s: ScopeView,
    fuel: nat,
)
    ensures
        eval_or(floats, items, i, s, fuel) matches Ok((_, s2)) ==> s2 == s,
    decreases items.len() - i,
{
    if i < items.len() {
        lemma_or_keeps_scope(floats, items, i + 1, s, fuel);
    }
}

/// A form that is not a `define`, evaluated as a sub-expression, leaves
/// the scope as it found it: no binding made inside it, by a nested
/// `define` or in a procedure's body, outlives it.
pub proof fn law_scope_discard(
    floats: &FloatFolds,
    items: Seq<Tree>,
    s: ScopeView,
    fuel: nat,
)
    requires
        head_form(items) != Some(SpecialForm::Define),
    ensures
        eval(floats, Tree::Form(items), s, false, fuel) matches Ok((_, s2)) ==> s2 == s,
{
    if items.len() > 0 {
        if let Some(form) = head_form(items) {
            lemma_cond_keeps_scope(floats, items, 1, s, fuel);
            lemma_and_keeps_scope(floats, items, 1, Value::Bool(true), s, fuel);
            lemma_or_keeps_scope(floats, items, 1, s, fuel);
        }
    }
}

/// A procedure call keeps none of the bindings made inside it: the
/// parameters and every `define` in the body are dropped when it returns,
/// and the scope that follows the call is the one its operands left, at
/// top level, or the caller's own, nested.
pub proof fn law_call_discards(
    floats: &FloatFolds,
    items: Seq<Tree>,
    s: ScopeView,
    top: bool,
    fuel: nat,
)
    requires
        items.len() > 0,
        head_form(items) is None,
    ensures
        match eval_each(floats, items, s, fuel) {
            Ok((vs, s1)) => vs[0] is Lambda && vs.len() > 1 ==> (eval(
                floats,
                Tree::Form(items),
                s,
                top,
                fuel,
            ) matches Ok((_, s2)) ==> s2 == (if top {
                s1
            } else {
                s
            })),
            Err(_) => true,
        },
{
}

/// The form `(define name expr)`.
pub open spec fn define_form(name: Seq<char>, expr: Tree) -> Tree {
    Tree::Form(define_items(name, expr))
}

pub open spec fn define_items(name: Seq<char>, expr: Tree) -> Seq<Tree> {
    seq![Tree::Atom(Value::Symbol("define"@)), Tree::Atom(Value::Symbol(name)), expr]
}

/// Defining a name twice leaves only the second value bound to it: the
/// scope is the one that the second definition alone would have made.
pub proof fn law_redefinition(
    floats: &FloatFolds,
    s: ScopeView,
    name: Seq<char>,
    first: Value,
    second: Value,
    top: bool,
    fuel: nat,
)
    requires
        !(first is Symbol),
        !(second is Symbol),
    ensures
        ({
            let once = eval(floats, define_form(name, Tree::Atom(first)), s, top, fuel);
            let alone = eval(floats, define_form(name, Tree::Atom(second)), s, top, fuel);
            &&& once is Ok
            &&& alone is Ok
            &&& eval(floats, define_form(name, Tree::Atom(second)), once->Ok_0.1, top, fuel)
                == alone
            &&& alone->Ok_0.1.variables[name] == second
        }),
{
    let once_items = define_items(name, Tree::Atom(first));
    let twice_items = define_items(name, Tree::Atom(second));
    let s1 = s.bind(name, first);
    assert(head_form(once_items) == Some(SpecialForm::Define));
    assert(head_form(twice_items) == Some(SpecialForm::Define));
    assert(eval(floats, Tree::Atom(first), s, false, fuel) == Ok::<(Value, ScopeView), Failure>(
        (first, s),
    ));
    assert(eval(floats, Tree::Atom(second), s1, false, fuel) == Ok::<(Value, ScopeView), Failure>(
        (second, s1),
    ));
    assert(eval(floats, Tree::Atom(second), s, false, fuel) == Ok::<(Value, ScopeView), Failure>(
        (second, s),
    ));
    assert(eval_special(floats, SpecialForm::Define, once_items, s, fuel) == Ok::<
        (Value, ScopeView),
        Failure,
    >((Value::Symbol(name), s1)));
    assert(s1.bind(name, second).variables =~= s.bind(name, second).variables);
    assert(eval_special(floats, SpecialForm::Define, twice_items, s1, fuel) == Ok::<
        (Value, ScopeView),
        Failure,
    >((Value::Symbol(name), s.bind(name, second))));
    assert(eval_special(floats, SpecialForm::Define, twice_items, s, fuel) == Ok::<
        (Value, ScopeView),
        Failure,
    >((Value::Symbol(name), s.bind(name, second))));
}

} // verus!
