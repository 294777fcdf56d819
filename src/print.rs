//! A fully parenthesized printer, and the law that the parser reads back
//! what it prints.

use vstd::prelude::*;
use vstd::string::StringExecFns;
use crate::expr::{Expr, Formula};
use crate::parser::{
    combine, expression_of, BinOp, false_word, is_letter, is_space, letter_len, op_at, parse_atom, parse_expr,
    parse_rest, space_len, true_word,
};

verus! {

/// How an operator is spelled.
pub open spec fn op_text(o: BinOp) -> Seq<char> {
    match o {
        BinOp::And => seq!['&'],
        BinOp::Or => seq!['|'],
        BinOp::Imply => seq!['=', '>'],
        BinOp::Equiv => seq!['<', '=', '>'],
    }
}

pub open spec fn infix(l: Seq<char>, op: Seq<char>, r: Seq<char>) -> Seq<char> {
    seq!['('] + l + seq![' '] + op + seq![' '] + r + seq![')']
}

/// `f` as text: every binary operation in parentheses, one space on each side
/// of its operator; `!` directly before its operand.
pub open spec fn show(f: Formula) -> Seq<char>
    decreases f,
{
    match f {
        Formula::Lit(b) => if b {
            true_word()
        } else {
            false_word()
        },
        Formula::Var(n) => n,
        Formula::Not(x) => seq!['!'] + show(*x),
        Formula::And(l, r) => infix(show(*l), op_text(BinOp::And), show(*r)),
        Formula::Or(l, r) => infix(show(*l), op_text(BinOp::Or), show(*r)),
        Formula::Imply(l, r) => infix(show(*l), op_text(BinOp::Imply), show(*r)),
        Formula::Equiv(l, r) => infix(show(*l), op_text(BinOp::Equiv), show(*r)),
    }
}

/// A variable name that the grammar can read back as that variable: one or
/// more letters, and not a keyword.
pub open spec fn valid_name(n: Seq<char>) -> bool {
    &&& n.len() > 0
    &&& forall|i: int| 0 <= i < n.len() ==> is_letter(#[trigger] n[i])
    &&& n != true_word()
    &&& n != false_word()
}

/// Every variable of `f` has a valid name.
pub open spec fn well_formed(f: Formula) -> bool
    decreases f,
{
    match f {
        Formula::Lit(_) => true,
        Formula::Var(n) => valid_name(n),
        Formula::Not(x) => well_formed(*x),
        Formula::And(l, r) => well_formed(*l) && well_formed(*r),
        Formula::Or(l, r) => well_formed(*l) && well_formed(*r),
        Formula::Imply(l, r) => well_formed(*l) && well_formed(*r),
        Formula::Equiv(l, r) => well_formed(*l) && well_formed(*r),
    }
}

proof fn lemma_letter_run(s: Seq<char>, i: int, n: int)
    requires
        0 <= i,
        0 <= n,
        i + n <= s.len(),
        forall|t: int| 0 <= t < n ==> is_letter(#[trigger] s[i + t]),
        i + n == s.len() || !is_letter(s[i + n]),
    ensures
        letter_len(s, i) == n,
    decreases n,
{
    if n > 0 {
        assert(is_letter(s[i + 0]));
        assert forall|t: int| 0 <= t < n - 1 implies is_letter(#[trigger] s[i + 1 + t]) by {
            assert(is_letter(s[i + (t + 1)]));
        }
        lemma_letter_run(s, i + 1, n - 1);
    }
}

proof fn lemma_show_start(f: Formula)
    requires
        well_formed(f),
    ensures
        show(f).len() > 0,
        !is_space(show(f)[0]),
        show(f)[0] != '&' && show(f)[0] != '|' && show(f)[0] != '=' && show(f)[0] != '<',
        match f {
            Formula::Lit(_) | Formula::Var(_) => forall|t: int|
                0 <= t < show(f).len() ==> is_letter(#[trigger] show(f)[t]),
            Formula::Not(_) => show(f)[0] == '!',
            _ => show(f)[0] == '(',
        },
{
    reveal_with_fuel(show, 2);
    match f {
        Formula::Var(n) => {
            assert(is_letter(n[0]));
        },
        _ => {},
    }
}

/// Whitespace before an atom is skipped.
proof fn lemma_atom_after_space(s: Seq<char>, i: int)
    requires
        0 <= i < s.len(),
        is_space(s[i]),
    ensures
        parse_atom(s, i) == parse_atom(s, i + 1),
{
    assert(space_len(s, i) == 1 + space_len(s, i + 1));
}

/// Where the printed form of a well-formed `f` stands in `s` at `i`, not
/// followed by a letter, the parser reads `f` there as an atom.
proof fn lemma_atom_show(s: Seq<char>, i: int, f: Formula)
    requires
        well_formed(f),
        0 <= i,
        i + show(f).len() <= s.len(),
        s.subrange(i, i + show(f).len()) == show(f),
        i + show(f).len() == s.len() || !is_letter(s[i + show(f).len()]),
    ensures
        parse_atom(s, i) == Some((f, i + show(f).len() + space_len(s, i + show(f).len()))),
    decreases f,
{
    let w = show(f);
    let e = i + w.len();
    lemma_show_start(f);
    assert(s[i] == w[0]);
    assert(space_len(s, i) == 0);
    assert forall|t: int| 0 <= t < w.len() implies s[i + t] == #[trigger] w[t] by {
        assert(s.subrange(i, e)[t] == s[i + t]);
    }
    match f {
        Formula::Lit(_) | Formula::Var(_) => {
            assert forall|t: int| 0 <= t < w.len() implies is_letter(#[trigger] s[i + t]) by {
                assert(s[i + t] == w[t]);
                assert(is_letter(w[t]));
            }
            lemma_letter_run(s, i, w.len() as int);
            assert(s.subrange(i, e) == w);
        },
        Formula::Not(x) => {
            assert(s.subrange(i + 1, e) =~= show(*x)) by {
                assert forall|t: int| 0 <= t < show(*x).len() implies s.subrange(i + 1, e)[t]
                    == show(*x)[t] by {
                    assert(w[1 + t] == show(*x)[t]);
                    assert(s[i + (1 + t)] == w[1 + t]);
                }
            }
            lemma_atom_show(s, i + 1, *x);
        },
        Formula::And(l, r) => {
            let o = BinOp::And;
            let c = i + 3 + show(*l).len() + op_text(o).len();
            lemma_infix_parts(s, i, show(*l), op_text(o), show(*r));
            lemma_atom_show(s, i + 1, *l);
            lemma_atom_show(s, c, *r);
            lemma_binary_parse(s, i, o, *l, *r);
        },
        Formula::Or(l, r) => {
            let o = BinOp::Or;
            let c = i + 3 + show(*l).len() + op_text(o).len();
            lemma_infix_parts(s, i, show(*l), op_text(o), show(*r));
            lemma_atom_show(s, i + 1, *l);
            lemma_atom_show(s, c, *r);
            lemma_binary_parse(s, i, o, *l, *r);
        },
        Formula::Imply(l, r) => {
            let o = BinOp::Imply;
            let c = i + 3 + show(*l).len() + op_text(o).len();
            lemma_infix_parts(s, i, show(*l), op_text(o), show(*r));
            lemma_atom_show(s, i + 1, *l);
            lemma_atom_show(s, c, *r);
            lemma_binary_parse(s, i, o, *l, *r);
        },
        Formula::Equiv(l, r) => {
            let o = BinOp::Equiv;
            let c = i + 3 + show(*l).len() + op_text(o).len();
            lemma_infix_parts(s, i, show(*l), op_text(o), show(*r));
            lemma_atom_show(s, i + 1, *l);
            lemma_atom_show(s, c, *r);
            lemma_binary_parse(s, i, o, *l, *r);
        },
    }
}

/// Where `infix(ls, op, rs)` stands in `s` at `i`, the parts stand at their offsets.
proof fn lemma_infix_parts(s: Seq<char>, i: int, ls: Seq<char>, op: Seq<char>, rs: Seq<char>)
    requires
        0 <= i,
        i + infix(ls, op, rs).len() <= s.len(),
        s.subrange(i, i + infix(ls, op, rs).len()) == infix(ls, op, rs),
    ensures
        s[i] == '(',
        s.subrange(i + 1, i + 1 + ls.len()) == ls,
        s[i + 1 + ls.len()] == ' ',
        s.subrange(i + 2 + ls.len(), i + 2 + ls.len() + op.len()) == op,
        s[i + 2 + ls.len() + op.len()] == ' ',
        s.subrange(i + 3 + ls.len() + op.len(), i + 3 + ls.len() + op.len() + rs.len()) == rs,
        s[i + 3 + ls.len() + op.len() + rs.len()] == ')',
        infix(ls, op, rs).len() == 4 + ls.len() + op.len() + rs.len(),
{
    let w = infix(ls, op, rs);
    let a = (1 + ls.len()) as int;
    let b = (2 + ls.len() + op.len()) as int;
    let c = (3 + ls.len() + op.len()) as int;
    assert forall|t: int| 0 <= t < w.len() implies s[i + t] == #[trigger] w[t] by {
        assert(s.subrange(i, i + w.len())[t] == s[i + t]);
    }
    assert(s[i + 0] == w[0]);
    assert(s.subrange(i + 1, i + a) =~= ls) by {
        assert forall|t: int| 0 <= t < ls.len() implies s.subrange(i + 1, i + a)[t] == ls[t] by {
            assert(w[1 + t] == ls[t]);
            assert(s[i + (1 + t)] == w[1 + t]);
        }
    }
    assert(s[i + a] == w[a]);
    assert(s.subrange(i + a + 1, i + b) =~= op) by {
        assert forall|t: int| 0 <= t < op.len() implies s.subrange(i + a + 1, i + b)[t] == op[t] by {
            assert(w[a + 1 + t] == op[t]);
            assert(s[i + (a + 1 + t)] == w[a + 1 + t]);
        }
    }
    assert(s[i + b] == w[b]);
    assert(s.subrange(i + c, i + c + rs.len()) =~= rs) by {
        assert forall|t: int| 0 <= t < rs.len() implies s.subrange(i + c, i + c + rs.len())[t]
            == rs[t] by {
            assert(w[c + t] == rs[t]);
            assert(s[i + (c + t)] == w[c + t]);
        }
    }
    assert(s[i + (c + rs.len())] == w[(c + rs.len()) as int]);
}

/// The parse of a printed binary formula, from the parses of its two sides.
proof fn lemma_binary_parse(s: Seq<char>, i: int, o: BinOp, l: Formula, r: Formula)
    requires
        well_formed(l),
        well_formed(r),
        0 <= i,
        i + infix(show(l), op_text(o), show(r)).len() <= s.len(),
        s.subrange(i, i + infix(show(l), op_text(o), show(r)).len()) == infix(
            show(l),
            op_text(o),
            show(r),
        ),
        parse_atom(s, i + 1) == Some(
            (l, i + 1 + show(l).len() + space_len(s, i + 1 + show(l).len())),
        ),
        parse_atom(s, i + 3 + show(l).len() + op_text(o).len()) == Some(
            (
                r,
                i + 3 + show(l).len() + op_text(o).len() + show(r).len() + space_len(
                    s,
                    i + 3 + show(l).len() + op_text(o).len() + show(r).len(),
                ),
            ),
        ),
    ensures
        parse_atom(s, i) == Some(
            (
                combine(o, l, r),
                i + infix(show(l), op_text(o), show(r)).len() + space_len(
                    s,
                    i + infix(show(l), op_text(o), show(r)).len(),
                ),
            ),
        ),
{
    let ls = show(l);
    let rs = show(r);
    let op = op_text(o);
    lemma_infix_parts(s, i, ls, op, rs);
    lemma_show_start(l);
    lemma_show_start(r);
    let a = i + 2 + ls.len();
    let m = a + op.len();
    let b = m + 1;
    let q = b + rs.len();
    let f = combine(o, l, r);
    assert(s[a] == op[0]) by {
        assert(s.subrange(a, m)[0] == s[a]);
    }
    assert(space_len(s, a) == 0);
    assert(space_len(s, a - 1) == 1);
    assert(op_at(s, a) == Some((o, m))) by {
        assert(s.subrange(a, m)[0] == s[a]);
        if op.len() > 1 {
            assert(s.subrange(a, m)[1] == s[a + 1]);
        }
        if op.len() > 2 {
            assert(s.subrange(a, m)[2] == s[a + 2]);
        }
    }
    assert(s[b] == rs[0]) by {
        assert(s.subrange(b, q)[0] == s[b]);
    }
    assert(space_len(s, q) == 0);
    lemma_atom_after_space(s, m);
    assert(parse_rest(s, q, f) == Some((f, q)));
    assert(parse_rest(s, a, l) == Some((f, q)));
    assert(parse_expr(s, i + 1) == Some((f, q)));
    assert(space_len(s, i) == 0);
}

/// Reading back what the printer writes: a well-formed formula, printed fully
/// parenthesized, parses to that same formula.
pub proof fn lemma_parse_show(f: Formula)
    requires
        well_formed(f),
    ensures
        expression_of(show(f)) == Some(f),
{
    let s = show(f);
    assert(s.subrange(0, s.len() as int) =~= s);
    lemma_atom_show(s, 0, f);
    lemma_show_start(f);
    assert(space_len(s, s.len() as int) == 0);
    assert(parse_rest(s, s.len() as int, f) == Some((f, s.len() as int)));
}

fn print_infix(l: String, op: &str, r: String) -> (t: String)
    ensures
        t@ == infix(l@, op@, r@),
{
    let mut t = String::from_str("(");
    t.append(l.as_str());
    t.append(" ");
    t.append(op);
    t.append(" ");
    t.append(r.as_str());
    t.append(")");
    proof {
        reveal_strlit("(");
        reveal_strlit(" ");
        reveal_strlit(")");
        assert(t@ =~= infix(l@, op@, r@));
    }
    t
}

/// `expr` as text, each binary operation in parentheses.
pub fn print(expr: &Expr) -> (t: String)
    ensures
        t@ == show(expr@),
    decreases expr,
{
    match expr {
        Expr::True => {
            let t = String::from_str("true");
            proof {
                reveal_strlit("true");
                assert(t@ =~= true_word());
            }
            t
        },
        Expr::False => {
            let t = String::from_str("false");
            proof {
                reveal_strlit("false");
                assert(t@ =~= false_word());
            }
            t
        },
        Expr::Term(n) => n.clone(),
        Expr::Not(x) => {
            let mut t = String::from_str("!");
            let inner = print(x);
            t.append(inner.as_str());
            proof {
                reveal_strlit("!");
                assert(t@ =~= seq!['!'] + show(x@));
            }
            t
        },
        Expr::And(l, r) => {
            proof {
                reveal_strlit("&");
                assert("&"@ =~= op_text(BinOp::And));
            }
            print_infix(print(l), "&", print(r))
        },
        Expr::Or(l, r) => {
            proof {
                reveal_strlit("|");
                assert("|"@ =~= op_text(BinOp::Or));
            }
            print_infix(print(l), "|", print(r))
        },
        Expr::Imply(l, r) => {
            proof {
                reveal_strlit("=>");
                assert("=>"@ =~= op_text(BinOp::Imply));
            }
            print_infix(print(l), "=>", print(r))
        },
        Expr::Equiv(l, r) => {
            proof {
                reveal_strlit("<=>");
                assert("<=>"@ =~= op_text(BinOp::Equiv));
            }
            print_infix(print(l), "<=>", print(r))
        },
    }
}

} // verus!
