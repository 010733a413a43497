use vstd::prelude::*;
use crate::types::{Native, Primitive, Value, value_of};

verus! {

broadcast use vstd::std_specs::vec::group_vec_axioms, vstd::seq::group_seq_axioms;

/// The mathematical model of a `Scope`: two maps from names.
pub struct ScopeView {
    pub natives: Map<Seq<char>, Native>,
    pub variables: Map<Seq<char>, Value>,
}

impl ScopeView {
    /// This scope with `name` bound to `value` among its variables.
    pub open spec fn bind(self, name: Seq<char>, value: Value) -> ScopeView {
        ScopeView { natives: self.natives, variables: self.variables.insert(name, value) }
    }
}

/// The map that a list of entries with distinct names stands for.
pub open spec fn map_of<V>(entries: Seq<(Seq<char>, V)>) -> Map<Seq<char>, V>
    decreases entries.len(),
{
    if entries.len() == 0 {
        Map::empty()
    } else {
        map_of(entries.drop_last()).insert(entries.last().0, entries.last().1)
    }
}

/// No name occurs twice among the entries.
pub open spec fn names_unique<V>(entries: Seq<(Seq<char>, V)>) -> bool {
    forall|i: int, j: int|
        0 <= i < j < entries.len() ==> #[trigger] entries[i].0 != #[trigger] entries[j].0
}

pub open spec fn variable_entries(v: Seq<(String, Primitive)>) -> Seq<(Seq<char>, Value)> {
    v.map_values(|e: (String, Primitive)| (e.0@, value_of(e.1)))
}

pub open spec fn native_entries(v: Seq<(String, Native)>) -> Seq<(Seq<char>, Native)> {
    v.map_values(|e: (String, Native)| (e.0@, e.1))
}

proof fn lemma_map_of_entry<V>(entries: Seq<(Seq<char>, V)>, i: int)
    requires
        names_unique(entries),
        0 <= i < entries.len(),
    ensures
        map_of(entries).contains_key(entries[i].0),
        map_of(entries)[entries[i].0] == entries[i].1,
    decreases entries.len(),
{
    let last = entries.len() - 1;
    if i < last {
        lemma_map_of_entry(entries.drop_last(), i);
        assert(entries[i].0 != entries[last].0);
    }
}

proof fn lemma_map_of_last<V>(entries: Seq<(Seq<char>, V)>, i: int)
    requires
        0 <= i < entries.len(),
        forall|j: int| i < j < entries.len() ==> #[trigger] entries[j].0 != entries[i].0,
    ensures
        map_of(entries).contains_key(entries[i].0),
        map_of(entries)[entries[i].0] == entries[i].1,
    decreases entries.len(),
{
    let last = entries.len() - 1;
    if i < last {
        let rest = entries.drop_last();
        assert forall|j: int| i < j < rest.len() implies #[trigger] rest[j].0 != rest[i].0 by {
            assert(rest[j] == entries[j]);
        }
        lemma_map_of_last(rest, i);
        assert(entries[last].0 != entries[i].0);
    }
}

proof fn lemma_map_of_absent<V>(entries: Seq<(Seq<char>, V)>, name: Seq<char>)
    requires
        forall|i: int| 0 <= i < entries.len() ==> #[trigger] entries[i].0 != name,
    ensures
        !map_of(entries).contains_key(name),
    decreases entries.len(),
{
    if entries.len() > 0 {
        let rest = entries.drop_last();
        assert forall|i: int| 0 <= i < rest.len() implies #[trigger] rest[i].0 != name by {
            assert(rest[i] == entries[i]);
        }
        lemma_map_of_absent(rest, name);
    }
}

proof fn lemma_map_of_update<V>(entries: Seq<(Seq<char>, V)>, i: int, value: V)
    requires
        names_unique(entries),
        0 <= i < entries.len(),
    ensures
        map_of(entries.update(i, (entries[i].0, value))) == map_of(entries).insert(
            entries[i].0,
            value,
        ),
    decreases entries.len(),
{
    let updated = entries.update(i, (entries[i].0, value));
    let last = entries.len() - 1;
    if i == last {
        assert(updated.drop_last() == entries.drop_last());
        assert(map_of(entries).insert(entries[i].0, value) == map_of(entries.drop_last()).insert(
            entries[i].0,
            value,
        ));
    } else {
        let rest = entries.drop_last();
        assert(updated.drop_last() == rest.update(i, (rest[i].0, value)));
        lemma_map_of_update(rest, i, value);
        assert(entries[i].0 != entries[last].0);
        assert(map_of(updated) == map_of(entries).insert(entries[i].0, value));
    }
}

/// The builtin procedures of a standard scope, by name.
pub open spec fn standard_natives() -> Map<Seq<char>, Native> {
    map![
        "+"@ => Native::Add,
        "-"@ => Native::Subtract,
        "*"@ => Native::Multiply,
        "/"@ => Native::Divide,
        ">"@ => Native::Greater,
        "<"@ => Native::Less,
        "="@ => Native::Equal,
        ">="@ => Native::GreaterEqual,
        "<="@ => Native::LessEqual,
        "not"@ => Native::Not,
    ]
}

/// A scope with the builtin procedures and no variables.
pub fn standard_env() -> (r: Scope)
    ensures
        r@.natives == standard_natives(),
        r@.variables == Map::<Seq<char>, Value>::empty(),
{
    let mut natives: Vec<(String, Native)> = Vec::new();
    natives.push(("+".to_owned(), Native::Add));
    natives.push(("-".to_owned(), Native::Subtract));
    natives.push(("*".to_owned(), Native::Multiply));
    natives.push(("/".to_owned(), Native::Divide));
    natives.push((">".to_owned(), Native::Greater));
    natives.push(("<".to_owned(), Native::Less));
    natives.push(("=".to_owned(), Native::Equal));
    natives.push((">=".to_owned(), Native::GreaterEqual));
    natives.push(("<=".to_owned(), Native::LessEqual));
    natives.push(("not".to_owned(), Native::Not));
    let variables: Vec<(String, Primitive)> = Vec::new();
    proof {
        reveal_strlit("+");
        reveal_strlit("-");
        reveal_strlit("*");
        reveal_strlit("/");
        reveal_strlit(">");
        reveal_strlit("<");
        reveal_strlit("=");
        reveal_strlit(">=");
        reveal_strlit("<=");
        reveal_strlit("not");
        let es = native_entries(natives@);
        assert(es =~= seq![
            ("+"@, Native::Add),
            ("-"@, Native::Subtract),
            ("*"@, Native::Multiply),
            ("/"@, Native::Divide),
            (">"@, Native::Greater),
            ("<"@, Native::Less),
            ("="@, Native::Equal),
            (">="@, Native::GreaterEqual),
            ("<="@, Native::LessEqual),
            ("not"@, Native::Not),
        ]);
        reveal_with_fuel(map_of, 11);
        assert(map_of(es) =~= standard_natives());
        assert(variable_entries(variables@).len() == 0);
    }
    Scope { native_procedures: natives, variables }
}

/// The bindings that evaluation reads and extends: the builtin procedures,
/// fixed when the scope is made, and the variables that `define` adds.
#[derive(Debug)]
pub struct Scope {
    native_procedures: Vec<(String, Native)>,
    variables: Vec<(String, Primitive)>,
}

impl View for Scope {
    type V = ScopeView;

    closed spec fn view(&self) -> ScopeView {
        ScopeView {
            natives: map_of(native_entries(self.native_procedures@)),
            variables: map_of(variable_entries(self.variables@)),
        }
    }
}

impl Scope {
    #[verifier::type_invariant]
    spec fn names_are_unique(&self) -> bool {
        names_unique(variable_entries(self.variables@))
    }

    /// A scope with no natives and no variables.
    pub fn empty() -> (r: Scope)
        ensures
            r@.natives == Map::<Seq<char>, Native>::empty(),
            r@.variables == Map::<Seq<char>, Value>::empty(),
    {
        let r = Scope { native_procedures: Vec::new(), variables: Vec::new() };
        assert(native_entries(r.native_procedures@).len() == 0);
        assert(variable_entries(r.variables@).len() == 0);
        r
    }

    /// The value bound to `name` among the variables, if any.
    pub fn variable(&self, name: &String) -> (r: Option<&Primitive>)
        ensures
            r is Some <==> self@.variables.contains_key(name@),
            r matches Some(p) ==> p@ == self@.variables[name@],
    {
        proof {
            use_type_invariant(self);
        }
        let ghost es = variable_entries(self.variables@);
        let mut i: usize = 0;
        while i < self.variables.len()
            invariant
                i <= self.variables.len(),
                es == variable_entries(self.variables@),
                names_unique(es),
                forall|j: int| 0 <= j < i ==> #[trigger] es[j].0 != name@,
            decreases self.variables.len() - i,
        {
            if self.variables[i].0 == *name {
                proof {
                    lemma_map_of_entry(es, i as int);
                }
                return Some(&self.variables[i].1);
            }
            i += 1;
        }
        proof {
            lemma_map_of_absent(es, name@);
        }
        None
    }

    /// The builtin procedure registered under `name`, if any.
    pub fn native(&self, name: &String) -> (r: Option<Native>)
        ensures
            r is Some <==> self@.natives.contains_key(name@),
            r matches Some(f) ==> f == self@.natives[name@],
    {
        let ghost es = native_entries(self.native_procedures@);
        let mut i: usize = self.native_procedures.len();
        while i > 0
            invariant
                i <= self.native_procedures.len(),
                es == native_entries(self.native_procedures@),
                forall|j: int| i <= j < es.len() ==> #[trigger] es[j].0 != name@,
            decreases i,
        {
            i -= 1;
            if self.native_procedures[i].0 == *name {
                proof {
                    lemma_map_of_last(es, i as int);
                }
                return Some(self.native_procedures[i].1);
            }
        }
        proof {
            lemma_map_of_absent(es, name@);
        }
        None
    }

    /// Binds `name` to `value` among the variables, replacing an earlier
    /// binding of that name.
    pub fn set_variable(&mut self, name: String, value: Primitive)
        ensures
            final(self)@ == old(self)@.bind(name@, value@),
    {
        let mut taken = Scope::empty();
        core::mem::swap(self, &mut taken);
        proof {
            use_type_invariant(&taken);
        }
        let Scope { native_procedures, mut variables } = taken;
        let ghost es = variable_entries(variables@);
        let mut i: usize = 0;
        let mut found = false;
        while i < variables.len()
            invariant_except_break
                !found,
            invariant
                i <= variables.len(),
                es == variable_entries(variables@),
                names_unique(es),
                forall|j: int| 0 <= j < i ==> #[trigger] es[j].0 != name@,
            ensures
                i <= variables.len(),
                es == variable_entries(variables@),
                found ==> i < variables.len() && es[i as int].0 == name@,
                !found ==> forall|j: int| 0 <= j < variables.len() ==> #[trigger] es[j].0 != name@,
            decreases variables.len() - i,
        {
            if variables[i].0 == name {
                found = true;
                break;
            }
            i += 1;
        }
        if found {
            variables.set(i, (name, value));
            proof {
                assert(variable_entries(variables@) =~= es.update(i as int, (es[i as int].0, value@)));
                lemma_map_of_update(es, i as int, value@);
                let new_es = variable_entries(variables@);
                assert forall|a: int, b: int| 0 <= a < b < new_es.len() implies #[trigger] new_es[a].0
                    != #[trigger] new_es[b].0 by {
                    assert(new_es[a].0 == es[a].0 && new_es[b].0 == es[b].0);
                }
            }
        } else {
            variables.push((name, value));
            proof {
                let new_es = variable_entries(variables@);
                assert(new_es.drop_last() =~= es);
                assert(new_es.last() == (name@, value@));
                assert forall|a: int, b: int| 0 <= a < b < new_es.len() implies #[trigger] new_es[a].0
                    != #[trigger] new_es[b].0 by {
                    if b < es.len() {
                        assert(new_es[a] == es[a] && new_es[b] == es[b]);
                    } else {
                        assert(new_es[a] == es[a]);
                    }
                }
            }
        }
        let mut rebuilt = Scope { native_procedures, variables };
        core::mem::swap(self, &mut rebuilt);
    }

    /// A deep copy.
    pub fn duplicate(&self) -> (r: Scope)
        ensures
            r@ == self@,
    {
        proof {
            use_type_invariant(self);
        }
        let mut natives: Vec<(String, Native)> = Vec::new();
        let mut i: usize = 0;
        while i < self.native_procedures.len()
            invariant
                i <= self.native_procedures.len(),
                natives.len() == i,
                forall|j: int| 0 <= j < i ==> #[trigger] natives@[j].0@ == self.native_procedures@[j].0@
                    && natives@[j].1 == self.native_procedures@[j].1,
            decreases self.native_procedures.len() - i,
        {
            natives.push((self.native_procedures[i].0.clone(), self.native_procedures[i].1));
            i += 1;
        }
        let mut variables: Vec<(String, Primitive)> = Vec::new();
        let mut k: usize = 0;
        while k < self.variables.len()
            invariant
                k <= self.variables.len(),
                variables.len() == k,
                forall|j: int| 0 <= j < k ==> #[trigger] variables@[j].0@ == self.variables@[j].0@
                    && variables@[j].1@ == self.variables@[j].1@,
            decreases self.variables.len() - k,
        {
            variables.push((self.variables[k].0.clone(), self.variables[k].1.duplicate()));
            k += 1;
        }
        assert(native_entries(natives@) =~= native_entries(self.native_procedures@));
        assert(variable_entries(variables@) =~= variable_entries(self.variables@));
        Scope { native_procedures: natives, variables }
    }
}

} // verus!
