//! The formula grammar, as spec functions over characters, and a
//! recursive-descent parser proved to follow it.
//!
//! All four binary operators share one precedence level and fold to the left;
//! `!` takes the single atom that follows it.

use vstd::prelude::*;
use vstd::string::StringExecFns;
use crate::expr::{Expr, Formula};

verus! {

/// A binary connective.
#[derive(Debug, Clone, Copy, PartialEq, Eq, Structural)]
pub enum BinOp {
    And,
    Or,
    Imply,
    Equiv,
}

pub open spec fn is_space(c: char) -> bool {
    c == ' ' || c == '\t' || c == '\n' || c == '\r'
}

pub open spec fn is_letter(c: char) -> bool {
    ('a' <= c && c <= 'z') || ('A' <= c && c <= 'Z')
}

/// The number of whitespace characters from position `i` on.
pub open spec fn space_len(s: Seq<char>, i: int) -> nat
    decreases s.len() - i,
{
    if 0 <= i < s.len() && is_space(s[i]) {
        1 + space_len(s, i + 1)
    } else {
        0
    }
}

/// The number of letters from position `i` on.
pub open spec fn letter_len(s: Seq<char>, i: int) -> nat
    decreases s.len() - i,
{
    if 0 <= i < s.len() && is_letter(s[i]) {
        1 + letter_len(s, i + 1)
    } else {
        0
    }
}

/// The operator spelled at position `i`, with the position after it.
pub open spec fn op_at(s: Seq<char>, i: int) -> Option<(BinOp, int)> {
    if !(0 <= i < s.len()) {
        None
    } else if s[i] == '&' {
        Some((BinOp::And, i + 1))
    } else if s[i] == '|' {
        Some((BinOp::Or, i + 1))
    } else if i + 1 < s.len() && s[i] == '=' && s[i + 1] == '>' {
        Some((BinOp::Imply, i + 2))
    } else if i + 2 < s.len() && s[i] == '<' && s[i + 1] == '=' && s[i + 2] == '>' {
        Some((BinOp::Equiv, i + 3))
    } else {
        None
    }
}

pub open spec fn combine(op: BinOp, l: Formula, r: Formula) -> Formula {
    match op {
        BinOp::And => Formula::And(Box::new(l), Box::new(r)),
        BinOp::Or => Formula::Or(Box::new(l), Box::new(r)),
        BinOp::Imply => Formula::Imply(Box::new(l), Box::new(r)),
        BinOp::Equiv => Formula::Equiv(Box::new(l), Box::new(r)),
    }
}

pub open spec fn true_word() -> Seq<char> {
    seq!['t', 'r', 'u', 'e']
}

pub open spec fn false_word() -> Seq<char> {
    seq!['f', 'a', 'l', 's', 'e']
}

/// An identifier read as a term: the two keywords are literals.
pub open spec fn term_of(name: Seq<char>) -> Formula {
    if name == true_word() {
        Formula::Lit(true)
    } else if name == false_word() {
        Formula::Lit(false)
    } else {
        Formula::Var(name)
    }
}

/// An atom at `i`, with surrounding whitespace: a term, `!` and an atom, or a
/// parenthesized expression. Gives the formula and the position after it.
pub open spec fn parse_atom(s: Seq<char>, i: int) -> Option<(Formula, int)>
    decreases s.len() - i, 0nat,
{
    if i < 0 || i > s.len() {
        None
    } else {
        let j = i + space_len(s, i);
        if j >= s.len() {
            None
        } else if is_letter(s[j]) {
            let k = j + letter_len(s, j);
            Some((term_of(s.subrange(j, k)), k + space_len(s, k)))
        } else if s[j] == '!' {
            match parse_atom(s, j + 1) {
                Some((x, k)) => Some((Formula::Not(Box::new(x)), k)),
                None => None,
            }
        } else if s[j] == '(' {
            match parse_expr(s, j + 1) {
                Some((x, k)) => if 0 <= k < s.len() && s[k] == ')' {
                    Some((x, k + 1 + space_len(s, k + 1)))
                } else {
                    None
                },
                None => None,
            }
        } else {
            None
        }
    }
}

/// An expression at `i`: an atom followed by any number of operator and atom
/// pairs, folded to the left.
pub open spec fn parse_expr(s: Seq<char>, i: int) -> Option<(Formula, int)>
    decreases s.len() - i, 1nat,
{
    match parse_atom(s, i) {
        Some((x, k)) => if i < k <= s.len() {
            parse_rest(s, k, x)
        } else {
            None
        },
        None => None,
    }
}

/// The operator and atom pairs from `i` on, folded onto `acc`.
pub open spec fn parse_rest(s: Seq<char>, i: int, acc: Formula) -> Option<(Formula, int)>
    decreases s.len() - i, 0nat,
{
    if i < 0 || i > s.len() {
        None
    } else {
        let j = i + space_len(s, i);
        match op_at(s, j) {
            None => Some((acc, j)),
            Some((op, m)) => match parse_atom(s, m) {
                Some((x, k)) => if m < k <= s.len() {
                    parse_rest(s, k, combine(op, acc, x))
                } else {
                    None
                },
                None => None,
            },
        }
    }
}

/// The statements `name = expression;` from `i` to the end of `s`, each
/// surrounded by optional whitespace.
pub open spec fn parse_stmts(s: Seq<char>, i: int) -> Option<Seq<(Seq<char>, Formula)>>
    decreases s.len() - i,
{
    if i < 0 || i > s.len() {
        None
    } else {
        let j = i + space_len(s, i);
        if j >= s.len() {
            Some(Seq::empty())
        } else if !is_letter(s[j]) {
            None
        } else {
            let k = j + letter_len(s, j);
            let e = k + space_len(s, k);
            if e < s.len() && s[e] == '=' {
                match parse_expr(s, e + 1) {
                    Some((x, p)) => if e + 1 < p < s.len() && s[p] == ';' {
                        match parse_stmts(s, p + 1) {
                            Some(more) => Some(seq![(s.subrange(j, k), x)] + more),
                            None => None,
                        }
                    } else {
                        None
                    },
                    None => None,
                }
            } else {
                None
            }
        }
    }
}

/// The program that the whole of `s` spells, if any.
pub open spec fn program_of(s: Seq<char>) -> Option<Seq<(Seq<char>, Formula)>> {
    parse_stmts(s, 0)
}

/// The views of a parsed program's named formulas.
pub open spec fn program_view(p: Seq<(String, Expr)>) -> Seq<(Seq<char>, Formula)> {
    p.map_values(|x: (String, Expr)| (x.0@, x.1@))
}

/// The formula that the whole of `s` spells, if any.
pub open spec fn expression_of(s: Seq<char>) -> Option<Formula> {
    match parse_expr(s, 0) {
        Some((f, k)) => if k == s.len() {
            Some(f)
        } else {
            None
        },
        None => None,
    }
}

fn space_end(s: &Vec<char>, i: usize) -> (j: usize)
    requires
        i <= s@.len(),
    ensures
        j == i + space_len(s@, i as int),
        j <= s@.len(),
{
    let mut j = i;
    while j < s.len() && (s[j] == ' ' || s[j] == '\t' || s[j] == '\n' || s[j] == '\r')
        invariant
            i <= j <= s@.len(),
            space_len(s@, i as int) == (j - i) + space_len(s@, j as int),
        decreases s@.len() - j,
    {
        j = j + 1;
    }
    j
}

fn letter_end(s: &Vec<char>, i: usize) -> (j: usize)
    requires
        i <= s@.len(),
    ensures
        j == i + letter_len(s@, i as int),
        j <= s@.len(),
{
    let mut j = i;
    while j < s.len() && (('a' <= s[j] && s[j] <= 'z') || ('A' <= s[j] && s[j] <= 'Z'))
        invariant
            i <= j <= s@.len(),
            letter_len(s@, i as int) == (j - i) + letter_len(s@, j as int),
        decreases s@.len() - j,
    {
        j = j + 1;
    }
    j
}

fn read_op(s: &Vec<char>, i: usize) -> (r: Option<(BinOp, usize)>)
    requires
        i <= s@.len(),
    ensures
        op_at(s@, i as int) == (match r {
            Some((op, m)) => Some((op, m as int)),
            None => None,
        }),
        r matches Some((_, m)) ==> m <= s@.len(),
{
    let n = s.len();
    if i >= n {
        None
    } else if s[i] == '&' {
        Some((BinOp::And, i + 1))
    } else if s[i] == '|' {
        Some((BinOp::Or, i + 1))
    } else if n - i > 1 && s[i] == '=' && s[i + 1] == '>' {
        Some((BinOp::Imply, i + 2))
    } else if n - i > 2 && s[i] == '<' && s[i + 1] == '=' && s[i + 2] == '>' {
        Some((BinOp::Equiv, i + 3))
    } else {
        None
    }
}

fn make_binary(op: BinOp, l: Expr, r: Expr) -> (e: Expr)
    ensures
        e@ == combine(op, l@, r@),
{
    match op {
        BinOp::And => Expr::And(Box::new(l), Box::new(r)),
        BinOp::Or => Expr::Or(Box::new(l), Box::new(r)),
        BinOp::Imply => Expr::Imply(Box::new(l), Box::new(r)),
        BinOp::Equiv => Expr::Equiv(Box::new(l), Box::new(r)),
    }
}

fn make_term(text: &str, s: &Vec<char>, j: usize, k: usize) -> (e: Expr)
    requires
        s@ == text@,
        j <= k <= s@.len(),
    ensures
        e@ == term_of(s@.subrange(j as int, k as int)),
{
    let ghost w = s@.subrange(j as int, k as int);
    if k - j == 4 && s[j] == 't' && s[j + 1] == 'r' && s[j + 2] == 'u' && s[j + 3] == 'e' {
        assert(w =~= true_word());
        Expr::True
    } else if k - j == 5 && s[j] == 'f' && s[j + 1] == 'a' && s[j + 2] == 'l' && s[j + 3] == 's'
        && s[j + 4] == 'e' {
        assert(w =~= false_word());
        assert(w != true_word()) by {
            assert(w.len() != true_word().len());
        }
        Expr::False
    } else {
        assert(w != true_word()) by {
            if w == true_word() {
                assert(w.len() == 4);
                assert(w[0] == s@[j as int] && w[1] == s@[j + 1]);
                assert(w[2] == s@[j + 2] && w[3] == s@[j + 3]);
                assert(w[0] == 't' && w[1] == 'r' && w[2] == 'u' && w[3] == 'e');
            }
        }
        assert(w != false_word()) by {
            if w == false_word() {
                assert(w.len() == 5);
                assert(w[0] == s@[j as int] && w[1] == s@[j + 1] && w[2] == s@[j + 2]);
                assert(w[3] == s@[j + 3] && w[4] == s@[j + 4]);
                assert(w[0] == 'f' && w[1] == 'a' && w[2] == 'l' && w[3] == 's' && w[4] == 'e');
            }
        }
        Expr::Term(String::from_str(text.substring_char(j, k)))
    }
}

fn atom(text: &str, s: &Vec<char>, i: usize) -> (r: Result<(Expr, usize), usize>)
    requires
        s@ == text@,
        i <= s@.len(),
    ensures
        match r {
            Ok((e, k)) => parse_atom(s@, i as int) == Some((e@, k as int)) && i < k <= s@.len(),
            Err(p) => parse_atom(s@, i as int) is None && p <= s@.len(),
        },
    decreases s@.len() - i, 0nat,
{
    let j = space_end(s, i);
    if j >= s.len() {
        Err(j)
    } else if ('a' <= s[j] && s[j] <= 'z') || ('A' <= s[j] && s[j] <= 'Z') {
        let k = letter_end(s, j);
        let e = make_term(text, s, j, k);
        let m = space_end(s, k);
        Ok((e, m))
    } else if s[j] == '!' {
        match atom(text, s, j + 1) {
            Ok((x, k)) => Ok((Expr::Not(Box::new(x)), k)),
            Err(p) => Err(p),
        }
    } else if s[j] == '(' {
        match expression(text, s, j + 1) {
            Ok((x, k)) => {
                if k < s.len() && s[k] == ')' {
                    let m = space_end(s, k + 1);
                    Ok((x, m))
                } else {
                    Err(k)
                }
            },
            Err(p) => Err(p),
        }
    } else {
        Err(j)
    }
}

fn expression(text: &str, s: &Vec<char>, i: usize) -> (r: Result<(Expr, usize), usize>)
    requires
        s@ == text@,
        i <= s@.len(),
    ensures
        match r {
            Ok((e, k)) => parse_expr(s@, i as int) == Some((e@, k as int)) && i < k <= s@.len(),
            Err(p) => parse_expr(s@, i as int) is None && p <= s@.len(),
        },
    decreases s@.len() - i, 1nat,
{
    match atom(text, s, i) {
        Ok((x, k)) => rest(text, s, k, x),
        Err(p) => Err(p),
    }
}

fn rest(text: &str, s: &Vec<char>, i: usize, acc: Expr) -> (r: Result<(Expr, usize), usize>)
    requires
        s@ == text@,
        0 < i <= s@.len(),
    ensures
        match r {
            Ok((e, k)) => parse_rest(s@, i as int, acc@) == Some((e@, k as int)) && i <= k
                <= s@.len(),
            Err(p) => parse_rest(s@, i as int, acc@) is None && p <= s@.len(),
        },
    decreases s@.len() - i, 0nat,
{
    let j = space_end(s, i);
    match read_op(s, j) {
        None => Ok((acc, j)),
        Some((op, m)) => match atom(text, s, m) {
            Ok((x, k)) => rest(text, s, k, make_binary(op, acc, x)),
            Err(p) => Err(p),
        },
    }
}

/// Text that does not follow the grammar: where the parser stopped, and what
/// was left from there.
#[derive(Debug, PartialEq, Eq)]
pub struct ParseError {
    pub position: usize,
    pub rest: String,
}

fn chars_of(text: &str) -> (s: Vec<char>)
    ensures
        s@ == text@,
{
    let n = text.unicode_len();
    let mut s: Vec<char> = Vec::new();
    let mut i: usize = 0;
    while i < n
        invariant
            n == text@.len(),
            i <= n,
            s@ == text@.take(i as int),
        decreases n - i,
    {
        s.push(text.get_char(i));
        i = i + 1;
        assert(s@ =~= text@.take(i as int));
    }
    assert(text@.take(i as int) =~= text@);
    s
}

fn error_at(text: &str, p: usize) -> (e: ParseError)
    requires
        p <= text@.len(),
    ensures
        e.position == p,
        e.rest@ == text@.subrange(p as int, text@.len() as int),
{
    let n = text.unicode_len();
    ParseError { position: p, rest: String::from_str(text.substring_char(p, n)) }
}

/// Parses one formula that spans the whole text, with optional whitespace
/// around it.
pub fn parse_expression(text: &str) -> (r: Result<Expr, ParseError>)
    ensures
        r is Ok <==> expression_of(text@) is Some,
        r matches Ok(e) ==> expression_of(text@) == Some(e@),
        r matches Err(err) ==> err.position <= text@.len() && err.rest@ == text@.subrange(
            err.position as int,
            text@.len() as int,
        ),
{
    let s = chars_of(text);
    match expression(text, &s, 0) {
        Ok((e, k)) => {
            if k == s.len() {
                Ok(e)
            } else {
                Err(error_at(text, k))
            }
        },
        Err(p) => Err(error_at(text, p)),
    }
}

fn statements(text: &str, s: &Vec<char>, i: usize) -> (r: Result<Vec<(String, Expr)>, usize>)
    requires
        s@ == text@,
        i <= s@.len(),
    ensures
        match r {
            Ok(p) => parse_stmts(s@, i as int) == Some(program_view(p@)),
            Err(p) => parse_stmts(s@, i as int) is None && p <= s@.len(),
        },
    decreases s@.len() - i,
{
    let j = space_end(s, i);
    if j >= s.len() {
        let v: Vec<(String, Expr)> = Vec::new();
        assert(program_view(v@) =~= Seq::empty());
        return Ok(v);
    }
    if !(('a' <= s[j] && s[j] <= 'z') || ('A' <= s[j] && s[j] <= 'Z')) {
        return Err(j);
    }
    let k = letter_end(s, j);
    let e = space_end(s, k);
    if !(e < s.len() && s[e] == '=') {
        return Err(e);
    }
    match expression(text, s, e + 1) {
        Ok((x, p)) => {
            if p < s.len() && s[p] == ';' {
                match statements(text, s, p + 1) {
                    Ok(more) => {
                        let name = String::from_str(text.substring_char(j, k));
                        let mut v: Vec<(String, Expr)> = Vec::new();
                        v.push((name, x));
                        let ghost first = v@;
                        let mut more = more;
                        let ghost tail = more@;
                        v.append(&mut more);
                        proof {
                            assert(program_view(v@) =~= program_view(first) + program_view(tail));
                            assert(program_view(first) =~= seq![(s@.subrange(j as int, k as int), x@)]);
                        }
                        Ok(v)
                    },
                    Err(q) => Err(q),
                }
            } else {
                Err(p)
            }
        },
        Err(q) => Err(q),
    }
}

/// Parses a program: zero or more statements `name = expression;`, each with
/// optional whitespace around it, in the order they are written.
pub fn parse_program(text: &str) -> (r: Result<Vec<(String, Expr)>, ParseError>)
    ensures
        r is Ok <==> program_of(text@) is Some,
        r matches Ok(p) ==> program_of(text@) == Some(program_view(p@)),
        r matches Err(err) ==> err.position <= text@.len() && err.rest@ == text@.subrange(
            err.position as int,
            text@.len() as int,
        ),
{
    let s = chars_of(text);
    match statements(text, &s, 0) {
        Ok(p) => Ok(p),
        Err(q) => Err(error_at(text, q)),
    }
}

} // verus!
