use vstd::prelude::*;
use crate::number::{chars_of, float_literal, has_point, int_literal_value, is_float_literal, literal_int};
use crate::types::{ParseTree, Primitive, Tree, Value, trees_of};

verus! {

broadcast use vstd::std_specs::vec::group_vec_axioms, vstd::seq::group_seq_axioms;

/// The characters that `char::is_whitespace` accepts: Unicode's
/// `White_Space` property.
pub open spec fn is_space(c: char) -> bool {
    let n = c as u32;
    n == 0x20 || (0x09 <= n <= 0x0d) || n == 0x85 || n == 0xa0 || n == 0x1680 || (0x2000 <= n
        <= 0x200a) || n == 0x2028 || n == 0x2029 || n == 0x202f || n == 0x205f || n == 0x3000
}

pub open spec fn is_paren(c: char) -> bool {
    c == '(' || c == ')'
}

/// The lexeme gathered so far, as a list of at most one token.
pub open spec fn flush(current: Seq<char>) -> Seq<Seq<char>> {
    if current.len() == 0 {
        Seq::empty()
    } else {
        seq![current]
    }
}

/// The tokens of `s`, `current` being the lexeme read just before it:
/// each parenthesis is a token of its own, and whitespace separates the
/// other tokens.
pub open spec fn scan(s: Seq<char>, current: Seq<char>) -> Seq<Seq<char>>
    decreases s.len(),
{
    if s.len() == 0 {
        flush(current)
    } else if is_paren(s[0]) {
        flush(current) + seq![seq![s[0]]] + scan(s.drop_first(), Seq::empty())
    } else if is_space(s[0]) {
        flush(current) + scan(s.drop_first(), Seq::empty())
    } else {
        scan(s.drop_first(), current.push(s[0]))
    }
}

pub open spec fn tokens_of(text: Seq<char>) -> Seq<Seq<char>> {
    scan(text, Seq::empty())
}

pub open spec fn strings_view(v: Seq<String>) -> Seq<Seq<char>> {
    v.map_values(|s: String| s@)
}

fn space_char(c: char) -> (r: bool)
    ensures
        r == is_space(c),
{
    let n = c as u32;
    n == 0x20 || (0x09 <= n && n <= 0x0d) || n == 0x85 || n == 0xa0 || n == 0x1680 || (0x2000 <= n
        && n <= 0x200a) || n == 0x2028 || n == 0x2029 || n == 0x202f || n == 0x205f || n == 0x3000
}

/// Splits `expression` into parentheses and the whitespace-separated
/// lexemes between them: `(+ 1 1)` gives `(`, `+`, `1`, `1`, `)`.
pub fn tokenize(expression: &str) -> (r: Vec<String>)
    ensures
        strings_view(r@) == tokens_of(expression@),
{
    let cs = chars_of(expression);
    let ghost s = cs@;
    let mut tokens: Vec<String> = Vec::new();
    let mut start: usize = 0;
    let mut i: usize = 0;
    proof {
        assert(s.subrange(0, 0) =~= Seq::<char>::empty());
        assert(s.subrange(0, s.len() as int) =~= s);
        assert(strings_view(tokens@) =~= Seq::<Seq<char>>::empty());
    }
    while i < cs.len()
        invariant
            s == cs@,
            s == expression@,
            start <= i <= cs.len(),
            strings_view(tokens@) + scan(s.subrange(i as int, s.len() as int), s.subrange(start as int, i as int))
                == tokens_of(s),
        decreases cs.len() - i,
    {
        let c = cs[i];
        let ghost rest = s.subrange(i as int, s.len() as int);
        let ghost current = s.subrange(start as int, i as int);
        proof {
            assert(rest[0] == c);
            assert(rest.drop_first() =~= s.subrange(i + 1, s.len() as int));
        }
        if c == '(' || c == ')' || space_char(c) {
            let ghost before = strings_view(tokens@);
            if start < i {
                let lexeme = expression.substring_char(start, i).to_owned();
                tokens.push(lexeme);
                proof {
                    assert(strings_view(tokens@) =~= before + flush(current));
                }
            } else {
                proof {
                    assert(current.len() == 0);
                    assert(strings_view(tokens@) =~= before + flush(current));
                }
            }
            let ghost middle = strings_view(tokens@);
            if c == '(' || c == ')' {
                let mark = expression.substring_char(i, i + 1).to_owned();
                tokens.push(mark);
                proof {
                    assert(s.subrange(i as int, i + 1) =~= seq![c]);
                    assert(strings_view(tokens@) =~= middle + seq![seq![c]]);
                    assert(s.subrange(i + 1, i + 1) =~= Seq::<char>::empty());
                }
            } else {
                proof {
                    assert(s.subrange(i + 1, i + 1) =~= Seq::<char>::empty());
                }
            }
            start = i + 1;
        } else {
            proof {
                assert(s.subrange(start as int, i + 1) =~= current.push(c));
            }
        }
        i += 1;
    }
    proof {
        assert(s.subrange(s.len() as int, s.len() as int).len() == 0);
    }
    if start < cs.len() {
        let ghost before = strings_view(tokens@);
        let lexeme = expression.substring_char(start, cs.len()).to_owned();
        tokens.push(lexeme);
        proof {
            assert(strings_view(tokens@) =~= before + flush(s.subrange(start as int, s.len() as int)));
        }
    } else {
        proof {
            assert(strings_view(tokens@) =~= strings_view(tokens@) + flush(
                s.subrange(start as int, s.len() as int),
            ));
        }
    }
    tokens
}

/// The value that a lexeme reads as: a float literal with a point is a
/// float, one without is an integer; a lexeme quoted at both ends is a
/// string without its quotes; anything else is a symbol.
pub open spec fn classify(t: Seq<char>) -> Value {
    if is_float_literal(t) {
        if has_point(t) {
            Value::Float(t)
        } else {
            Value::Int(int_literal_value(t))
        }
    } else if t.len() >= 2 && t[0] == '"' && t[t.len() - 1] == '"' {
        Value::Str(t.subrange(1, t.len() - 1))
    } else {
        Value::Symbol(t)
    }
}

fn contains_point(cs: &Vec<char>) -> (r: bool)
    ensures
        r == has_point(cs@),
{
    let mut i: usize = 0;
    while i < cs.len()
        invariant
            i <= cs.len(),
            forall|j: int| 0 <= j < i ==> cs@[j] != '.',
        decreases cs.len() - i,
    {
        if cs[i] == '.' {
            return true;
        }
        i += 1;
    }
    false
}

/// The leaf that a lexeme reads as.
pub fn categorize(token: &String) -> (r: ParseTree)
    ensures
        r@ == Tree::Atom(classify(token@)),
{
    let text = token.as_str();
    let cs = chars_of(text);
    if float_literal(&cs) {
        if contains_point(&cs) {
            ParseTree::Element(Primitive::Float(token.clone()))
        } else {
            ParseTree::Element(Primitive::Integer(literal_int(&cs)))
        }
    } else if cs.len() >= 2 && cs[0] == '"' && cs[cs.len() - 1] == '"' {
        let inner = text.substring_char(1, cs.len() - 1).to_owned();
        ParseTree::Element(Primitive::String(inner))
    } else {
        ParseTree::Element(Primitive::Identifier(token.clone()))
    }
}

/// The reader's stack of open forms with `t` added to the innermost one.
pub open spec fn add_to_top(stack: Seq<Seq<Tree>>, t: Tree) -> Seq<Seq<Tree>> {
    stack.update(stack.len() - 1, stack.last().push(t))
}

/// The stack with its innermost form closed into the one around it.
pub open spec fn close_top(stack: Seq<Seq<Tree>>) -> Seq<Seq<Tree>> {
    add_to_top(stack.drop_last(), Tree::Form(stack.last()))
}

/// One token read: `(` opens a form, `)` closes the innermost one (and
/// is ignored where none is open), and any other token is a leaf.
pub open spec fn read_token(stack: Seq<Seq<Tree>>, token: Seq<char>) -> Seq<Seq<Tree>> {
    if token == seq!['('] {
        stack.push(Seq::empty())
    } else if token == seq![')'] {
        if stack.len() > 1 {
            close_top(stack)
        } else {
            stack
        }
    } else {
        add_to_top(stack, Tree::Atom(classify(token)))
    }
}

/// The stack after reading `tokens`, from a stack with only the top level.
pub open spec fn read_tokens(tokens: Seq<Seq<char>>) -> Seq<Seq<Tree>>
    decreases tokens.len(),
{
    if tokens.len() == 0 {
        seq![Seq::empty()]
    } else {
        read_token(read_tokens(tokens.drop_last()), tokens.last())
    }
}

/// The top level once every form still open is closed.
pub open spec fn close_all(stack: Seq<Seq<Tree>>) -> Seq<Tree>
    decreases stack.len(),
{
    if stack.len() == 0 {
        Seq::empty()
    } else if stack.len() == 1 {
        stack[0]
    } else {
        close_all(close_top(stack))
    }
}

/// What `parse` reads `text` as.
pub open spec fn read(text: Seq<char>) -> Tree {
    Tree::Form(close_all(read_tokens(tokens_of(text))))
}

pub open spec fn stack_view(stack: Seq<Vec<ParseTree>>) -> Seq<Seq<Tree>> {
    stack.map_values(|v: Vec<ParseTree>| trees_of(v@))
}

fn is_single(token: &String, c: char) -> (r: bool)
    ensures
        r == (token@ == seq![c]),
{
    let text = token.as_str();
    if text.unicode_len() != 1 {
        return false;
    }
    if text.get_char(0) == c {
        assert(text@ =~= seq![c]);
        true
    } else {
        false
    }
}

fn push_to_top(stack: &mut Vec<Vec<ParseTree>>, t: ParseTree)
    requires
        old(stack).len() >= 1,
    ensures
        final(stack).len() == old(stack).len(),
        stack_view(final(stack)@) == add_to_top(stack_view(old(stack)@), t@),
{
    let ghost before = stack_view(stack@);
    match stack.pop() {
        Some(mut top) => {
            let ghost inner = top@;
            top.push(t);
            proof {
                assert(top@.drop_last() == inner);
            }
            stack.push(top);
            proof {
                assert(stack_view(stack@) =~= add_to_top(before, t@));
            }
        },
        None => {},
    }
}

fn close_innermost(stack: &mut Vec<Vec<ParseTree>>)
    requires
        old(stack).len() >= 2,
    ensures
        final(stack).len() == old(stack).len() - 1,
        stack_view(final(stack)@) == close_top(stack_view(old(stack)@)),
{
    let ghost before = stack_view(stack@);
    match stack.pop() {
        Some(top) => {
            proof {
                assert(stack_view(stack@) =~= before.drop_last());
            }
            push_to_top(stack, ParseTree::List(top));
        },
        None => {},
    }
}

/// Gathers tokens into nested lists, leaf by leaf: the list of top-level
/// expressions.
fn parenthesize(tokens: &Vec<String>) -> (r: Vec<ParseTree>)
    ensures
        trees_of(r@) == close_all(read_tokens(strings_view(tokens@))),
{
    let ghost toks = strings_view(tokens@);
    let mut stack: Vec<Vec<ParseTree>> = Vec::new();
    stack.push(Vec::new());
    proof {
        assert(trees_of(Seq::<ParseTree>::empty()) =~= Seq::<Tree>::empty());
        assert(stack_view(stack@) =~= read_tokens(toks.subrange(0, 0)));
    }
    let mut i: usize = 0;
    while i < tokens.len()
        invariant
            i <= tokens.len(),
            toks == strings_view(tokens@),
            stack.len() >= 1,
            stack_view(stack@) == read_tokens(toks.subrange(0, i as int)),
        decreases tokens.len() - i,
    {
        let token = &tokens[i];
        proof {
            assert(toks.subrange(0, i + 1).drop_last() =~= toks.subrange(0, i as int));
            assert(toks.subrange(0, i + 1).last() == token@);
        }
        if is_single(token, '(') {
            let ghost before = stack_view(stack@);
            stack.push(Vec::new());
            proof {
                assert(stack_view(stack@) =~= before.push(Seq::empty()));
            }
        } else if is_single(token, ')') {
            if stack.len() > 1 {
                close_innermost(&mut stack);
            }
        } else {
            let leaf = categorize(token);
            push_to_top(&mut stack, leaf);
        }
        i += 1;
    }
    proof {
        assert(toks.subrange(0, toks.len() as int) =~= toks);
    }
    while stack.len() > 1
        invariant
            stack.len() >= 1,
            close_all(stack_view(stack@)) == close_all(read_tokens(toks)),
        decreases stack.len(),
    {
        close_innermost(&mut stack);
    }
    match stack.pop() {
        Some(top) => top,
        None => Vec::new(),
    }
}

/// Reads `expression` into a list of the expressions in it. The reader
/// never fails: a `)` with no form open is ignored, and forms left open at
/// the end are closed there.
pub fn parse(expression: &str) -> (r: ParseTree)
    ensures
        r@ == read(expression@),
{
    let tokens = tokenize(expression);
    ParseTree::List(parenthesize(&tokens))
}

} // verus!
