use vstd::prelude::*;
use vstd::arithmetic::div_mod::lemma_div_denominator;
use crate::types::{
    EvalError, Failure, Native, Primitive, Value, duplicate_all, lemma_values_of, outcome_of,
    value_of, values_of,
};

verus! {

broadcast use vstd::std_specs::vec::group_vec_axioms, vstd::seq::group_seq_axioms;

/// Results of binary64 folds, which the library does not compute.
///
/// Each entry is an arithmetic native, its operands (integers and floats)
/// and the text of the float that the native, folded left to right over
/// them in binary64, comes to: `+` from 0, `*` from 1, `-` and `/` from the
/// first operand, `-` of one operand negating it. A fold is needed only
/// where a float is among the operands. Evaluation that needs a
/// fold not recorded here stops with `EvalError::FloatFoldNeeded`; the
/// caller computes that fold, records it, and evaluates again.
#[derive(Debug)]
pub struct FloatFolds {
    folds: Vec<(Native, Vec<Primitive>, String)>,
}

pub open spec fn fold_entries(v: Seq<(Native, Vec<Primitive>, String)>) -> Seq<
    (Native, Seq<Value>, Seq<char>),
> {
    v.map_values(|e: (Native, Vec<Primitive>, String)| (e.0, values_of(e.1@), e.2@))
}

impl View for FloatFolds {
    type V = Seq<(Native, Seq<Value>, Seq<char>)>;

    closed spec fn view(&self) -> Seq<(Native, Seq<Value>, Seq<char>)> {
        fold_entries(self.folds@)
    }
}

/// The first recorded result of folding `op` over `operands`, if any.
pub open spec fn recorded_fold(
    table: Seq<(Native, Seq<Value>, Seq<char>)>,
    op: Native,
    operands: Seq<Value>,
) -> Option<Seq<char>>
    decreases table.len(),
{
    if table.len() == 0 {
        None
    } else if table[0].0 == op && table[0].1 == operands {
        Some(table[0].2)
    } else {
        recorded_fold(table.drop_first(), op, operands)
    }
}

/// Whether two operand lists, the second of numbers only, hold the same
/// values.
fn same_operands(a: &Vec<Primitive>, b: &Vec<Primitive>) -> (r: bool)
    requires
        forall|i: int| 0 <= i < b.len() ==> #[trigger] is_number(value_of(b@[i])),
    ensures
        r == (values_of(a@) == values_of(b@)),
{
    proof {
        lemma_values_of(a@);
        lemma_values_of(b@);
    }
    if a.len() != b.len() {
        return false;
    }
    let mut i: usize = 0;
    while i < a.len()
        invariant
            i <= a.len() == b.len(),
            forall|j: int| 0 <= j < b.len() ==> #[trigger] is_number(value_of(b@[j])),
            values_of(a@).len() == a.len(),
            values_of(b@).len() == b.len(),
            forall|j: int| 0 <= j < a.len() ==> #[trigger] values_of(a@)[j] == value_of(a@[j]),
            forall|j: int| 0 <= j < b.len() ==> #[trigger] values_of(b@)[j] == value_of(b@[j]),
            forall|j: int| 0 <= j < i ==> values_of(a@)[j] == #[trigger] values_of(b@)[j],
        decreases a.len() - i,
    {
        let same = match (&a[i], &b[i]) {
            (Primitive::Integer(x), Primitive::Integer(y)) => *x == *y,
            (Primitive::Float(x), Primitive::Float(y)) => *x == *y,
            _ => false,
        };
        if !same {
            assert(is_number(value_of(b@[i as int])));
            assert(values_of(a@)[i as int] != values_of(b@)[i as int]);
            return false;
        }
        i += 1;
    }
    assert(values_of(a@) =~= values_of(b@));
    true
}

impl FloatFolds {
    /// A table with no folds recorded.
    pub fn new() -> (r: FloatFolds)
        ensures
            r@ == Seq::<(Native, Seq<Value>, Seq<char>)>::empty(),
    {
        let r = FloatFolds { folds: Vec::new() };
        assert(r@ =~= Seq::<(Native, Seq<Value>, Seq<char>)>::empty());
        r
    }

    /// Records that folding `op` over `operands` gives the float `result`.
    pub fn record(&mut self, op: Native, operands: Vec<Primitive>, result: String)
        ensures
            final(self)@ == old(self)@.push((op, values_of(operands@), result@)),
    {
        let ghost before = self.folds@;
        self.folds.push((op, operands, result));
        assert(fold_entries(self.folds@) =~= fold_entries(before).push(
            (op, values_of(operands@), result@),
        ));
    }

    /// The recorded result of folding `op` over `operands`, if any.
    pub fn lookup(&self, op: Native, operands: &Vec<Primitive>) -> (r: Option<String>)
        requires
            forall|i: int| 0 <= i < operands.len() ==> #[trigger] is_number(value_of(operands@[i])),
        ensures
            match recorded_fold(self@, op, values_of(operands@)) {
                Some(text) => r matches Some(t) && t@ == text,
                None => r is None,
            },
    {
        let ghost table = self@;
        let ghost xs = values_of(operands@);
        let mut i: usize = 0;
        proof {
            assert(table.subrange(0, table.len() as int) =~= table);
        }
        while i < self.folds.len()
            invariant
                i <= self.folds.len(),
                table == fold_entries(self.folds@),
                table.len() == self.folds.len(),
                xs == values_of(operands@),
                forall|j: int| 0 <= j < operands.len() ==> #[trigger] is_number(value_of(operands@[j])),
                recorded_fold(table, op, xs) == recorded_fold(
                    table.subrange(i as int, table.len() as int),
                    op,
                    xs,
                ),
            decreases self.folds.len() - i,
        {
            let ghost rest = table.subrange(i as int, table.len() as int);
            proof {
                assert(rest[0] == table[i as int]);
                assert(rest.drop_first() =~= table.subrange(i + 1, table.len() as int));
            }
            if self.folds[i].0 == op && same_operands(&self.folds[i].1, operands) {
                return Some(self.folds[i].2.clone());
            }
            i += 1;
        }
        None
    }
}

/// `Bool(false)`, `Int(0)` and `Nil` are false; every other value is true.
pub open spec fn falsy(v: Value) -> bool {
    v == Value::Bool(false) || v == Value::Int(0) || v == Value::Nil
}

pub open spec fn truthy(v: Value) -> bool {
    !falsy(v)
}

pub open spec fn is_number(v: Value) -> bool {
    v is Int || v is Float
}

/// The first operand that is not a number, if any.
pub open spec fn first_non_number(s: Seq<Value>) -> Option<Value>
    decreases s.len(),
{
    if s.len() == 0 {
        None
    } else if !is_number(s[0]) {
        Some(s[0])
    } else {
        first_non_number(s.drop_first())
    }
}

pub open spec fn has_float(s: Seq<Value>) -> bool {
    exists|i: int| 0 <= i < s.len() && #[trigger] s[i] is Float
}

pub open spec fn int_of(v: Value) -> int {
    match v {
        Value::Int(n) => n as int,
        _ => 0,
    }
}

pub open spec fn sum(s: Seq<Value>) -> int
    decreases s.len(),
{
    if s.len() == 0 {
        0
    } else {
        sum(s.drop_last()) + int_of(s.last())
    }
}

pub open spec fn product(s: Seq<Value>) -> int
    decreases s.len(),
{
    if s.len() == 0 {
        1
    } else {
        product(s.drop_last()) * int_of(s.last())
    }
}

/// `x` truncated into the range of `i32`.
pub open spec fn clamp_i32(x: int) -> i32 {
    if x > i32::MAX {
        i32::MAX
    } else if x < i32::MIN {
        i32::MIN
    } else {
        x as i32
    }
}

pub open spec fn abs(x: int) -> int {
    if x < 0 {
        -x
    } else {
        x
    }
}

/// `a / b` truncated toward zero: the quotient of the magnitudes, negated
/// where exactly one of the two is negative.
pub open spec fn truncated_div(a: int, b: int) -> int {
    let q = abs(a) / abs(b);
    if (a < 0) != (b < 0) {
        -q
    } else {
        q
    }
}

/// The exact result of an arithmetic native on integer operands; for `/`,
/// the exact quotient of the first operand by the product of the others,
/// truncated toward zero (the divisors are not zero).
pub open spec fn integer_result(op: Native, s: Seq<Value>) -> int {
    match op {
        Native::Add => sum(s),
        Native::Multiply => product(s),
        Native::Subtract => if s.len() == 1 {
            -int_of(s[0])
        } else {
            int_of(s[0]) - sum(s.drop_first())
        },
        Native::Divide => truncated_div(int_of(s[0]), product(s.drop_first())),
        _ => 0,
    }
}

pub open spec fn is_arithmetic(op: Native) -> bool {
    op is Add || op is Subtract || op is Multiply || op is Divide
}

pub open spec fn is_comparison(op: Native) -> bool {
    op is Greater || op is Less || op is Equal || op is GreaterEqual || op is LessEqual
}

/// A comparison holds only of two integers.
pub open spec fn compare(op: Native, a: Value, b: Value) -> bool {
    match (a, b) {
        (Value::Int(x), Value::Int(y)) => match op {
            Native::Greater => x > y,
            Native::Less => x < y,
            Native::Equal => x == y,
            Native::GreaterEqual => x >= y,
            Native::LessEqual => x <= y,
            _ => false,
        },
        _ => false,
    }
}

/// What a native procedure returns for already evaluated arguments.
pub open spec fn native_result(floats: &FloatFolds, op: Native, args: Seq<Value>) -> Result<
    Value,
    Failure,
> {
    if is_arithmetic(op) {
        if let Some(v) = first_non_number(args) {
            Err(Failure::TypeMismatch(op, v))
        } else if (op is Subtract || op is Divide) && args.len() == 0 {
            Err(Failure::ArityMismatch(1, 0))
        } else if has_float(args) {
            match recorded_fold(floats@, op, args) {
                Some(text) => Ok(Value::Float(text)),
                None => Err(Failure::FloatFoldNeeded(op, args)),
            }
        } else if op is Divide && product(args.drop_first()) == 0 {
            Err(Failure::DivisionByZero)
        } else {
            Ok(Value::Int(clamp_i32(integer_result(op, args))))
        }
    } else {
        logic_result(op, args)
    }
}

/// What `not` and the comparisons return: they never reach a float fold.
pub open spec fn logic_result(op: Native, args: Seq<Value>) -> Result<Value, Failure> {
    if op is Not {
        if args.len() == 0 {
            Err(Failure::ArityMismatch(1, 0))
        } else {
            Ok(Value::Bool(falsy(args[0])))
        }
    } else if args.len() < 2 {
        Err(Failure::ArityMismatch(2, args.len()))
    } else {
        Ok(Value::Bool(compare(op, args[0], args[1])))
    }
}

pub fn falsy_value(v: &Primitive) -> (r: bool)
    ensures
        r == falsy(v@),
{
    match v {
        Primitive::Bool(b) => !*b,
        Primitive::Integer(n) => *n == 0,
        Primitive::Nil => true,
        _ => false,
    }
}

pub fn truthy_value(v: &Primitive) -> (r: bool)
    ensures
        r == truthy(v@),
{
    !falsy_value(v)
}

proof fn lemma_first_non_number_skip(s: Seq<Value>, i: int)
    requires
        0 <= i < s.len(),
        is_number(s[i]),
    ensures
        first_non_number(s.subrange(i, s.len() as int)) == first_non_number(
            s.subrange(i + 1, s.len() as int),
        ),
{
    assert(s.subrange(i, s.len() as int).drop_first() =~= s.subrange(i + 1, s.len() as int));
}

/// The first operand of `list` that is not a number, if any.
fn find_non_number(list: &Vec<Primitive>) -> (r: Option<&Primitive>)
    ensures
        match first_non_number(values_of(list@)) {
            Some(v) => r matches Some(p) && p@ == v,
            None => r is None,
        },
        r is None ==> forall|i: int| 0 <= i < list.len() ==> #[trigger] is_number(value_of(list@[i])),
{
    let ghost s = values_of(list@);
    proof {
        lemma_values_of(list@);
        assert(s.subrange(0, s.len() as int) =~= s);
    }
    let mut i: usize = 0;
    while i < list.len()
        invariant
            i <= list.len(),
            s == values_of(list@),
            s.len() == list.len(),
            forall|j: int| 0 <= j < list.len() ==> #[trigger] s[j] == value_of(list@[j]),
            first_non_number(s) == first_non_number(s.subrange(i as int, s.len() as int)),
            forall|j: int| 0 <= j < i ==> #[trigger] is_number(value_of(list@[j])),
        decreases list.len() - i,
    {
        match &list[i] {
            Primitive::Integer(_) | Primitive::Float(_) => {
                proof {
                    lemma_first_non_number_skip(s, i as int);
                }
            },
            other => {
                return Some(other);
            },
        }
        i += 1;
    }
    None
}

fn contains_float(list: &Vec<Primitive>) -> (r: bool)
    ensures
        r == has_float(values_of(list@)),
{
    proof {
        lemma_values_of(list@);
    }
    let mut i: usize = 0;
    while i < list.len()
        invariant
            i <= list.len(),
            values_of(list@).len() == list.len(),
            forall|j: int| 0 <= j < list.len() ==> #[trigger] values_of(list@)[j] == value_of(list@[j]),
            forall|j: int| 0 <= j < i ==> !(#[trigger] values_of(list@)[j] is Float),
        decreases list.len() - i,
    {
        if let Primitive::Float(_) = &list[i] {
            assert(values_of(list@)[i as int] is Float);
            return true;
        }
        i += 1;
    }
    false
}

/// Bound beyond which a running product no longer changes its clamped value.
pub const PRODUCT_CAP: i128 = 0x1_0000_0000;

pub open spec fn capped(x: int) -> int {
    if x > PRODUCT_CAP {
        PRODUCT_CAP as int
    } else if x < -PRODUCT_CAP {
        -PRODUCT_CAP
    } else {
        x
    }
}

proof fn lemma_capped_mul(p: int, x: int)
    requires
        i32::MIN <= x <= i32::MAX,
    ensures
        capped(capped(p) * x) == capped(p * x),
{
    let c = PRODUCT_CAP as int;
    if p > c {
        if x >= 1 {
            assert(p * x >= p) by (nonlinear_arith)
                requires
                    c > 0,
                    p > c,
                    x >= 1,
            ;
            assert(c * x >= c) by (nonlinear_arith)
                requires
                    c > 0,
                    x >= 1,
            ;
        } else if x <= -1 {
            assert(p * x <= -p) by (nonlinear_arith)
                requires
                    c > 0,
                    p > c,
                    x <= -1,
            ;
            assert(c * x <= -c) by (nonlinear_arith)
                requires
                    c > 0,
                    x <= -1,
            ;
        }
    } else if p < -c {
        if x >= 1 {
            assert(p * x <= p) by (nonlinear_arith)
                requires
                    c > 0,
                    p < -c,
                    x >= 1,
            ;
            assert((-c) * x <= -c) by (nonlinear_arith)
                requires
                    c > 0,
                    x >= 1,
            ;
        } else if x <= -1 {
            assert(p * x >= -p) by (nonlinear_arith)
                requires
                    c > 0,
                    p < -c,
                    x <= -1,
            ;
            assert((-c) * x >= c) by (nonlinear_arith)
                requires
                    c > 0,
                    x <= -1,
            ;
        }
    }
}

pub open spec fn all_integers(s: Seq<Value>) -> bool {
    forall|i: int| 0 <= i < s.len() ==> #[trigger] s[i] is Int
}

/// The exact sum of the integers `list[from..]`.
fn integer_sum(list: &Vec<Primitive>, from: usize) -> (r: i128)
    requires
        from <= list.len(),
        all_integers(values_of(list@)),
    ensures
        r == sum(values_of(list@).subrange(from as int, list.len() as int)),
        -0x8000_0000 * (list.len() - from) <= r <= 0x8000_0000 * (list.len() - from),
{
    let ghost s = values_of(list@);
    proof {
        lemma_values_of(list@);
        assert(s.subrange(from as int, from as int).len() == 0);
    }
    let mut acc: i128 = 0;
    let mut i: usize = from;
    while i < list.len()
        invariant
            from <= i <= list.len(),
            s == values_of(list@),
            s.len() == list.len(),
            all_integers(s),
            forall|j: int| 0 <= j < list.len() ==> #[trigger] s[j] == value_of(list@[j]),
            acc == sum(s.subrange(from as int, i as int)),
            -0x8000_0000 * (i - from) <= acc <= 0x8000_0000 * (i - from),
        decreases list.len() - i,
    {
        assert(s[i as int] is Int);
        if let Primitive::Integer(n) = &list[i] {
            proof {
                assert(s.subrange(from as int, i + 1).drop_last() =~= s.subrange(from as int, i as int));
            }
            acc = acc + *n as i128;
        }
        i += 1;
    }
    acc
}

/// The product of the integers in `list`, held within `PRODUCT_CAP`.
fn integer_product(list: &Vec<Primitive>) -> (r: i128)
    requires
        all_integers(values_of(list@)),
    ensures
        r == capped(product(values_of(list@))),
{
    let ghost s = values_of(list@);
    proof {
        lemma_values_of(list@);
        assert(s.subrange(0, 0).len() == 0);
    }
    let mut acc: i128 = 1;
    let mut i: usize = 0;
    while i < list.len()
        invariant
            i <= list.len(),
            s == values_of(list@),
            s.len() == list.len(),
            all_integers(s),
            forall|j: int| 0 <= j < list.len() ==> #[trigger] s[j] == value_of(list@[j]),
            acc == capped(product(s.subrange(0, i as int))),
        decreases list.len() - i,
    {
        assert(s[i as int] is Int);
        if let Primitive::Integer(n) = &list[i] {
            proof {
                assert(s.subrange(0, i + 1).drop_last() =~= s.subrange(0, i as int));
                lemma_capped_mul(product(s.subrange(0, i as int)), *n as int);
            }
            assert(-0x1_0000_0000 <= acc <= 0x1_0000_0000);
            assert(-0x80_0000_0000_0000_0000 <= acc * (*n as i128) <= 0x80_0000_0000_0000_0000)
                by (nonlinear_arith)
                requires
                    -0x1_0000_0000 <= acc <= 0x1_0000_0000,
                    i32::MIN <= *n <= i32::MAX,
            ;
            let m = acc * (*n as i128);
            acc = if m > PRODUCT_CAP {
                PRODUCT_CAP
            } else if m < -PRODUCT_CAP {
                -PRODUCT_CAP
            } else {
                m
            };
        }
        i += 1;
    }
    assert(s.subrange(0, s.len() as int) =~= s);
    acc
}

proof fn lemma_truncated_div_twice(a: int, p: int, d: int)
    requires
        p != 0,
        d != 0,
    ensures
        truncated_div(truncated_div(a, p), d) == truncated_div(a, p * d),
{
    assert(abs(p * d) == abs(p) * abs(d)) by (nonlinear_arith)
        requires
            abs(p) == (if p < 0 {
                -p
            } else {
                p
            }),
            abs(d) == (if d < 0 {
                -d
            } else {
                d
            }),
            abs(p * d) == (if p * d < 0 {
                -(p * d)
            } else {
                p * d
            }),
    ;
    assert((p * d < 0) == ((p < 0) != (d < 0))) by (nonlinear_arith)
        requires
            p != 0,
            d != 0,
    ;
    let q1 = abs(a) / abs(p);
    assert(q1 >= 0) by (nonlinear_arith)
        requires
            abs(a) >= 0,
            abs(p) > 0,
            q1 == abs(a) / abs(p),
    ;
    assert(abs(truncated_div(a, p)) == q1);
    lemma_div_denominator(abs(a), abs(p), abs(d));
    let q2 = q1 / abs(d);
    if q1 == 0 {
        assert(q2 == 0);
    } else {
        assert(a != 0) by {
            if a == 0 {
                assert(abs(a) / abs(p) == 0);
            }
        }
    }
}

/// The exact quotient of the first integer of `list` by the product of the
/// others, truncated toward zero; `None` where a divisor is zero.
fn integer_quotient(list: &Vec<Primitive>) -> (r: Option<i128>)
    requires
        list.len() >= 1,
        all_integers(values_of(list@)),
    ensures
        ({
            let s = values_of(list@);
            match r {
                Some(q) => product(s.drop_first()) != 0 && q == truncated_div(
                    int_of(s[0]),
                    product(s.drop_first()),
                ) && -0x8000_0000 <= q <= 0x8000_0000,
                None => product(s.drop_first()) == 0,
            }
        }),
{
    let ghost s = values_of(list@);
    proof {
        lemma_values_of(list@);
        assert(s[0] is Int);
    }
    let first: i32 = match &list[0] {
        Primitive::Integer(n) => *n,
        _ => 0,
    };
    let mut negative = first < 0;
    let mut magnitude: u64 = if first < 0 {
        (-(first as i64)) as u64
    } else {
        first as u64
    };
    proof {
        assert(s.subrange(1, 1).len() == 0);
        assert(product(s.subrange(1, 1)) == 1);
        let m = abs(first as int);
        assert(m / 1 == m) by (nonlinear_arith)
            requires
                m >= 0,
        ;
        assert(truncated_div(first as int, 1) == first);
    }
    let mut i: usize = 1;
    while i < list.len()
        invariant
            1 <= i <= list.len(),
            s == values_of(list@),
            s.len() == list.len(),
            all_integers(s),
            forall|j: int| 0 <= j < list.len() ==> #[trigger] s[j] == value_of(list@[j]),
            int_of(s[0]) == first,
            product(s.subrange(1, i as int)) != 0,
            magnitude <= 0x8000_0000,
            (if negative {
                -magnitude
            } else {
                magnitude as int
            }) == truncated_div(first as int, product(s.subrange(1, i as int))),
        decreases list.len() - i,
    {
        let ghost p = product(s.subrange(1, i as int));
        assert(s[i as int] is Int);
        let d: i32 = match &list[i] {
            Primitive::Integer(n) => *n,
            _ => 0,
        };
        proof {
            assert(s.subrange(1, i + 1).drop_last() =~= s.subrange(1, i as int));
            assert(product(s.subrange(1, i + 1)) == p * d);
        }
        if d == 0 {
            proof {
                lemma_product_zero(s, i as int + 1);
                assert(s.subrange(1, s.len() as int) =~= s.drop_first());
            }
            return None;
        }
        proof {
            lemma_truncated_div_twice(first as int, p, d as int);
            assert(p * d != 0) by (nonlinear_arith)
                requires
                    p != 0,
                    d != 0,
            ;
        }
        let divisor: u64 = if d < 0 {
            (-(d as i64)) as u64
        } else {
            d as u64
        };
        let ghost before = magnitude;
        magnitude = magnitude / divisor;
        negative = negative != (d < 0);
        proof {
            assert(magnitude <= before) by (nonlinear_arith)
                requires
                    divisor >= 1,
                    magnitude == before / divisor,
            ;
        }
        i += 1;
    }
    proof {
        assert(s.subrange(1, s.len() as int) =~= s.drop_first());
    }
    Some(
        if negative {
            -(magnitude as i128)
        } else {
            magnitude as i128
        },
    )
}

proof fn lemma_product_zero(s: Seq<Value>, k: int)
    requires
        1 <= k <= s.len(),
        product(s.subrange(1, k)) == 0,
    ensures
        product(s.subrange(1, s.len() as int)) == 0,
    decreases s.len() - k,
{
    if k < s.len() {
        assert(s.subrange(1, k + 1).drop_last() =~= s.subrange(1, k));
        lemma_product_zero(s, k + 1);
    }
}

fn clamp(x: i128) -> (r: i32)
    ensures
        r == clamp_i32(x as int),
{
    if x > i32::MAX as i128 {
        i32::MAX
    } else if x < i32::MIN as i128 {
        i32::MIN
    } else {
        x as i32
    }
}

/// The arithmetic natives: integer results are exact and then clamped to
/// `i32` (a quotient truncated toward zero); where a float takes part, the
/// fold is the caller's binary64 one.
fn arithmetic(op: Native, list: &Vec<Primitive>, floats: &FloatFolds) -> (r: Result<
    Primitive,
    EvalError,
>)
    requires
        is_arithmetic(op),
    ensures
        outcome_of(r) == native_result(floats, op, values_of(list@)),
{
    proof {
        lemma_values_of(list@);
    }
    let ghost s = values_of(list@);
    if let Some(bad) = find_non_number(list) {
        return Err(EvalError::TypeMismatch { procedure: op, value: bad.duplicate() });
    }
    if (op == Native::Subtract || op == Native::Divide) && list.len() == 0 {
        return Err(EvalError::ArityMismatch { expected: 1, found: 0 });
    }
    if contains_float(list) {
        return match floats.lookup(op, list) {
            Some(text) => Ok(Primitive::Float(text)),
            None => Err(EvalError::FloatFoldNeeded { procedure: op, operands: duplicate_all(list) }),
        };
    }
    assert(all_integers(s)) by {
        assert forall|i: int| 0 <= i < s.len() implies #[trigger] s[i] is Int by {
            assert(is_number(value_of(list@[i])));
            if s[i] is Float {
                assert(has_float(s));
            }
        }
    }
    let exact: i32 = match op {
        Native::Add => {
            assert(s.subrange(0, s.len() as int) =~= s);
            clamp(integer_sum(list, 0))
        },
        Native::Multiply => {
            let p = integer_product(list);
            assert(clamp_i32(p as int) == clamp_i32(product(s)));
            clamp(p)
        },
        Native::Divide => {
            match integer_quotient(list) {
                Some(q) => clamp(q),
                None => {
                    return Err(EvalError::DivisionByZero);
                },
            }
        },
        _ => {
            if list.len() == 1 {
                assert(s[0] is Int);
                if let Primitive::Integer(n) = &list[0] {
                    clamp(-(*n as i128))
                } else {
                    0
                }
            } else {
                assert(s[0] is Int);
                let rest = integer_sum(list, 1);
                if let Primitive::Integer(n) = &list[0] {
                    clamp(*n as i128 - rest)
                } else {
                    0
                }
            }
        },
    };
    Ok(Primitive::Integer(exact))
}

pub fn addition(list: &Vec<Primitive>, floats: &FloatFolds) -> (r: Result<Primitive, EvalError>)
    ensures
        outcome_of(r) == native_result(floats, Native::Add, values_of(list@)),
{
    arithmetic(Native::Add, list, floats)
}

pub fn subtract(list: &Vec<Primitive>, floats: &FloatFolds) -> (r: Result<Primitive, EvalError>)
    ensures
        outcome_of(r) == native_result(floats, Native::Subtract, values_of(list@)),
{
    arithmetic(Native::Subtract, list, floats)
}

pub fn multiply(list: &Vec<Primitive>, floats: &FloatFolds) -> (r: Result<Primitive, EvalError>)
    ensures
        outcome_of(r) == native_result(floats, Native::Multiply, values_of(list@)),
{
    arithmetic(Native::Multiply, list, floats)
}

pub fn divide(list: &Vec<Primitive>, floats: &FloatFolds) -> (r: Result<Primitive, EvalError>)
    ensures
        outcome_of(r) == native_result(floats, Native::Divide, values_of(list@)),
{
    arithmetic(Native::Divide, list, floats)
}

/// The comparisons: true only of two integers in the named order.
fn comparison(op: Native, list: &Vec<Primitive>) -> (r: Result<Primitive, EvalError>)
    requires
        is_comparison(op),
    ensures
        outcome_of(r) == logic_result(op, values_of(list@)),
{
    proof {
        lemma_values_of(list@);
    }
    if list.len() < 2 {
        return Err(EvalError::ArityMismatch { expected: 2, found: list.len() });
    }
    let holds = match (&list[0], &list[1]) {
        (Primitive::Integer(a), Primitive::Integer(b)) => match op {
            Native::Greater => *a > *b,
            Native::Less => *a < *b,
            Native::Equal => *a == *b,
            Native::GreaterEqual => *a >= *b,
            _ => *a <= *b,
        },
        _ => false,
    };
    Ok(Primitive::Bool(holds))
}

pub fn greater_than(list: &Vec<Primitive>) -> (r: Result<Primitive, EvalError>)
    ensures
        outcome_of(r) == logic_result(Native::Greater, values_of(list@)),
{
    comparison(Native::Greater, list)
}

pub fn less_than(list: &Vec<Primitive>) -> (r: Result<Primitive, EvalError>)
    ensures
        outcome_of(r) == logic_result(Native::Less, values_of(list@)),
{
    comparison(Native::Less, list)
}

pub fn equals(list: &Vec<Primitive>) -> (r: Result<Primitive, EvalError>)
    ensures
        outcome_of(r) == logic_result(Native::Equal, values_of(list@)),
{
    comparison(Native::Equal, list)
}

pub fn not(list: &Vec<Primitive>) -> (r: Result<Primitive, EvalError>)
    ensures
        outcome_of(r) == logic_result(Native::Not, values_of(list@)),
{
    proof {
        lemma_values_of(list@);
    }
    if list.len() == 0 {
        return Err(EvalError::ArityMismatch { expected: 1, found: 0 });
    }
    Ok(Primitive::Bool(falsy_value(&list[0])))
}

/// Calls the native procedure `op` on already evaluated arguments.
pub fn call_native(op: Native, list: &Vec<Primitive>, floats: &FloatFolds) -> (r: Result<
    Primitive,
    EvalError,
>)
    ensures
        outcome_of(r) == native_result(floats, op, values_of(list@)),
{
    match op {
        Native::Add | Native::Subtract | Native::Multiply | Native::Divide => arithmetic(op, list, floats),
        Native::Not => not(list),
        _ => comparison(op, list),
    }
}

} // verus!
