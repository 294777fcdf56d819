//! Enumeration of every assignment over a list of variables, and truth tables.

use vstd::prelude::*;
use crate::expr::{add_names, eval, free_vars, get_vars, interpret_, names, Assignment, Expr};

verus! {

/// Two to the power `n`.
pub open spec fn two_pow(n: nat) -> nat
    decreases n,
{
    if n == 0 {
        1
    } else {
        2 * two_pow((n - 1) as nat)
    }
}

/// Row `k` of the table over `vs`: the last variable takes the lowest bit of
/// `k`, the one before it the next bit, and so on.
pub open spec fn row_of(vs: Seq<Seq<char>>, k: nat) -> Map<Seq<char>, bool>
    decreases vs.len(),
{
    if vs.len() == 0 {
        Map::empty()
    } else {
        row_of(vs.drop_last(), k / 2).insert(vs.last(), k % 2 == 1)
    }
}

/// Each row binds exactly the variables of the list.
pub proof fn lemma_row_domain(vs: Seq<Seq<char>>, k: nat)
    ensures
        row_of(vs, k).dom() == vs.to_set(),
    decreases vs.len(),
{
    if vs.len() == 0 {
        assert(row_of(vs, k).dom() =~= vs.to_set());
    } else {
        lemma_row_domain(vs.drop_last(), k / 2);
        assert(vs =~= vs.drop_last().push(vs.last()));
        vs.drop_last().lemma_push_to_set_commute(vs.last());
        assert(row_of(vs, k).dom() =~= vs.to_set());
    }
}

/// Over distinct variables, distinct row numbers below `2^n` give distinct rows.
pub proof fn lemma_rows_distinct(vs: Seq<Seq<char>>, j: nat, k: nat)
    requires
        vs.no_duplicates(),
        j < two_pow(vs.len()),
        k < two_pow(vs.len()),
        j != k,
    ensures
        row_of(vs, j) != row_of(vs, k),
    decreases vs.len(),
{
    if vs.len() > 0 {
        let last = vs.last();
        if j % 2 != k % 2 {
            assert(row_of(vs, j)[last] != row_of(vs, k)[last]);
        } else {
            let init = vs.drop_last();
            assert(init.no_duplicates());
            lemma_rows_distinct(init, j / 2, k / 2);
            lemma_row_domain(init, j / 2);
            lemma_row_domain(init, k / 2);
            assert(!init.contains(last)) by {
                if init.contains(last) {
                    let i = choose|i: int| 0 <= i < init.len() && init[i] == last;
                    assert(vs[i] == vs[vs.len() - 1]);
                }
            }
            assert(row_of(vs, j).remove(last) =~= row_of(init, j / 2));
            assert(row_of(vs, k).remove(last) =~= row_of(init, k / 2));
        }
    }
}

/// The number of the row that gives each variable of `vs` its value in `m`.
pub open spec fn index_of(vs: Seq<Seq<char>>, m: Map<Seq<char>, bool>) -> nat
    decreases vs.len(),
{
    if vs.len() == 0 {
        0
    } else {
        2 * index_of(vs.drop_last(), m) + if m[vs.last()] {
            1nat
        } else {
            0nat
        }
    }
}

/// Every binding of the variables of `vs` is one of the rows.
pub proof fn lemma_row_index(vs: Seq<Seq<char>>, m: Map<Seq<char>, bool>)
    requires
        vs.to_set().subset_of(m.dom()),
    ensures
        index_of(vs, m) < two_pow(vs.len()),
        row_of(vs, index_of(vs, m)) == m.restrict(vs.to_set()),
    decreases vs.len(),
{
    if vs.len() == 0 {
        assert(m.restrict(vs.to_set()) =~= Map::empty());
    } else {
        let init = vs.drop_last();
        assert(vs =~= init.push(vs.last()));
        init.lemma_push_to_set_commute(vs.last());
        lemma_row_index(init, m);
        let k = index_of(vs, m);
        assert(k / 2 == index_of(init, m));
        assert(m.restrict(vs.to_set()) =~= m.restrict(init.to_set()).insert(vs.last(), m[vs.last()]));
    }
}

/// All assignments over `vars`, `2^n` of them: each variable in turn doubles the
/// list, every assignment giving one with it false and then one with it true.
pub fn make_table(vars: &Vec<String>) -> (r: Vec<Assignment>)
    ensures
        r@.len() == two_pow(vars@.len()),
        forall|k: int| 0 <= k < r@.len() ==> #[trigger] r@[k]@ == row_of(names(vars@), k as nat),
{
    let ghost vs = names(vars@);
    let mut tables: Vec<Assignment> = vec![Assignment::new()];
    proof {
        assert(vs.take(0) =~= Seq::<Seq<char>>::empty());
    }
    let mut i: usize = 0;
    while i < vars.len()
        invariant
            vs == names(vars@),
            i <= vars@.len(),
            tables@.len() == two_pow(i as nat),
            forall|k: int|
                0 <= k < tables@.len() ==> #[trigger] tables@[k]@ == row_of(
                    vs.take(i as int),
                    k as nat,
                ),
        decreases vars@.len() - i,
    {
        let v = &vars[i];
        let ghost pre = vs.take(i as int);
        let ghost cur = vs.take(i + 1);
        proof {
            assert(cur.drop_last() =~= pre);
            assert(cur.last() == v@);
        }
        let mut ls2: Vec<Assignment> = Vec::new();
        let mut j: usize = 0;
        while j < tables.len()
            invariant
                vs == names(vars@),
                i < vars@.len(),
                v@ == cur.last(),
                cur.drop_last() == pre,
                pre == vs.take(i as int),
                cur == vs.take(i + 1),
                j <= tables@.len(),
                ls2@.len() == 2 * j,
                forall|k: int|
                    0 <= k < tables@.len() ==> #[trigger] tables@[k]@ == row_of(pre, k as nat),
                forall|k: int| 0 <= k < ls2@.len() ==> #[trigger] ls2@[k]@ == row_of(cur, k as nat),
            decreases tables@.len() - j,
        {
            let mut new_table = tables[j].duplicate();
            new_table.insert(v.clone(), false);
            ls2.push(new_table);
            let mut new_table2 = tables[j].duplicate();
            new_table2.insert(v.clone(), true);
            ls2.push(new_table2);
            proof {
                let k0 = (2 * j) as nat;
                let k1 = (2 * j + 1) as nat;
                assert(k0 / 2 == j && k0 % 2 == 0);
                assert(k1 / 2 == j && k1 % 2 == 1);
                assert(ls2@[2 * j as int]@ == row_of(cur, k0));
                assert(ls2@[2 * j + 1]@ == row_of(cur, k1));
            }
            j = j + 1;
        }
        tables = ls2;
        i = i + 1;
    }
    proof {
        assert(vs.take(i as int) =~= vs);
    }
    tables
}

/// `a` comes strictly before `b` in the lexicographic order of characters.
pub open spec fn lex_lt(a: Seq<char>, b: Seq<char>) -> bool
    decreases a.len(),
{
    if a.len() == 0 {
        b.len() > 0
    } else if b.len() == 0 {
        false
    } else if a[0] != b[0] {
        a[0] < b[0]
    } else {
        lex_lt(a.drop_first(), b.drop_first())
    }
}

proof fn lemma_lex_irreflexive(a: Seq<char>)
    ensures
        !lex_lt(a, a),
    decreases a.len(),
{
    if a.len() > 0 {
        lemma_lex_irreflexive(a.drop_first());
    }
}

proof fn lemma_lex_total(a: Seq<char>, b: Seq<char>)
    requires
        a != b,
    ensures
        lex_lt(a, b) || lex_lt(b, a),
    decreases a.len(),
{
    if a.len() == 0 && b.len() == 0 {
        assert(a =~= b);
    } else if a.len() > 0 && b.len() > 0 && a[0] == b[0] {
        assert(a =~= seq![a[0]] + a.drop_first());
        assert(b =~= seq![b[0]] + b.drop_first());
        lemma_lex_total(a.drop_first(), b.drop_first());
    }
}

proof fn lemma_lex_transitive(a: Seq<char>, b: Seq<char>, c: Seq<char>)
    requires
        lex_lt(a, b),
        lex_lt(b, c),
    ensures
        lex_lt(a, c),
    decreases a.len(),
{
    if a.len() > 0 && a[0] == b[0] && b[0] == c[0] {
        lemma_lex_transitive(a.drop_first(), b.drop_first(), c.drop_first());
    }
}

/// Whether `a` comes strictly before `b` in the lexicographic order of characters.
pub fn name_less(a: &String, b: &String) -> (r: bool)
    ensures
        r == lex_lt(a@, b@),
{
    let sa = a.as_str();
    let sb = b.as_str();
    let la = sa.unicode_len();
    let lb = sb.unicode_len();
    let mut i: usize = 0;
    assert(a@.skip(0) =~= a@);
    assert(b@.skip(0) =~= b@);
    while i < la && i < lb
        invariant
            sa@ == a@,
            sb@ == b@,
            la == a@.len(),
            lb == b@.len(),
            i <= la,
            i <= lb,
            lex_lt(a@, b@) == lex_lt(a@.skip(i as int), b@.skip(i as int)),
        decreases la - i,
    {
        let ca = sa.get_char(i);
        let cb = sb.get_char(i);
        assert(a@.skip(i as int)[0] == ca);
        assert(b@.skip(i as int)[0] == cb);
        if ca != cb {
            return ca < cb;
        }
        proof {
            assert(a@.skip(i as int).drop_first() =~= a@.skip(i + 1));
            assert(b@.skip(i as int).drop_first() =~= b@.skip(i + 1));
        }
        i = i + 1;
    }
    i == la && i < lb
}

proof fn lemma_insert_to_set(sq: Seq<Seq<char>>, p: int, x: Seq<char>)
    requires
        0 <= p <= sq.len(),
    ensures
        sq.insert(p, x).to_set() == sq.to_set().insert(x),
{
    let t = sq.insert(p, x);
    assert forall|y: Seq<char>| t.contains(y) <==> sq.contains(y) || y == x by {
        if t.contains(y) {
            let k = choose|k: int| 0 <= k < t.len() && t[k] == y;
            if k < p {
                assert(sq[k] == y);
            } else if k > p {
                assert(sq[k - 1] == y);
            }
        }
        if sq.contains(y) {
            let k = choose|k: int| 0 <= k < sq.len() && sq[k] == y;
            if k < p {
                assert(t[k] == y);
            } else {
                assert(t[k + 1] == y);
            }
        }
        if y == x {
            assert(t[p] == y);
        }
    }
    assert(t.to_set() =~= sq.to_set().insert(x));
}

/// Strictly increasing in the lexicographic order, hence without repeats.
pub open spec fn sorted(v: Seq<Seq<char>>) -> bool {
    forall|i: int, j: int| 0 <= i < j < v.len() ==> lex_lt(#[trigger] v[i], #[trigger] v[j])
}

/// The names of `v`, which holds no name twice, in lexicographic order.
pub fn sort_names(v: &Vec<String>) -> (r: Vec<String>)
    requires
        names(v@).no_duplicates(),
    ensures
        sorted(names(r@)),
        names(r@).no_duplicates(),
        names(r@).to_set() == names(v@).to_set(),
        r@.len() == v@.len(),
{
    let mut out: Vec<String> = Vec::new();
    let mut i: usize = 0;
    proof {
        assert(names(v@).take(0).to_set() =~= names(out@).to_set());
    }
    while i < v.len()
        invariant
            i <= v@.len(),
            names(v@).no_duplicates(),
            out@.len() == i,
            sorted(names(out@)),
            names(out@).to_set() == names(v@).take(i as int).to_set(),
        decreases v@.len() - i,
    {
        let x = &v[i];
        let ghost xs = x@;
        assert(!names(out@).contains(xs)) by {
            if names(out@).contains(xs) {
                assert(names(v@).take(i as int).to_set().contains(xs));
                let k = choose|k: int| 0 <= k < i && names(v@).take(i as int)[k] == xs;
                assert(names(v@)[k] == names(v@)[i as int]);
            }
        }
        let mut p: usize = 0;
        let mut stop = false;
        while p < out.len() && !stop
            invariant
                xs == x@,
                p <= out@.len(),
                forall|q: int| 0 <= q < p ==> lex_lt(#[trigger] out@[q]@, xs),
                stop ==> p < out@.len() && !lex_lt(out@[p as int]@, xs),
            decreases out@.len() - p + if stop {
                0int
            } else {
                1int
            },
        {
            if name_less(&out[p], x) {
                p = p + 1;
            } else {
                stop = true;
            }
        }
        proof {
            if p < out@.len() {
                assert(names(out@)[p as int] == out@[p as int]@);
                lemma_lex_total(xs, out@[p as int]@);
            }
        }
        let ghost before = out@;
        out.insert(p, x.clone());
        proof {
            assert(names(out@) =~= names(before).insert(p as int, xs));
            assert forall|a: int, b: int| 0 <= a < b < names(out@).len() implies lex_lt(
                #[trigger] names(out@)[a],
                #[trigger] names(out@)[b],
            ) by {
                if b == p {
                    assert(names(before)[a] == before[a]@);
                } else if a == p {
                    if b > p + 1 {
                        assert(lex_lt(names(before)[p as int], names(before)[b - 1]));
                        lemma_lex_transitive(xs, names(before)[p as int], names(before)[b - 1]);
                    }
                } else if a < p && b > p {
                    assert(lex_lt(names(before)[a], names(before)[b - 1]));
                } else if a > p {
                    assert(lex_lt(names(before)[a - 1], names(before)[b - 1]));
                } else {
                    assert(lex_lt(names(before)[a], names(before)[b]));
                }
            }
            lemma_insert_to_set(names(before), p as int, xs);
            assert(names(v@).take(i + 1) =~= names(v@).take(i as int).push(xs));
            names(v@).take(i as int).lemma_push_to_set_commute(xs);
        }
        i = i + 1;
    }
    proof {
        assert(names(v@).take(i as int) =~= names(v@));
        assert forall|a: int, b: int| 0 <= a < b < names(out@).len() implies names(out@)[a]
            != names(out@)[b] by {
            lemma_lex_irreflexive(names(out@)[a]);
        }
    }
    out
}

proof fn lemma_names_len(v: Seq<String>)
    requires
        names(v).no_duplicates(),
    ensures
        names(v).to_set().len() == v.len(),
{
    names(v).unique_seq_to_set();
}

/// The truth table of `expr`: one row for each assignment over its variables,
/// with the value of `expr` under it.
pub fn truth_table(expr: &Expr) -> (r: Vec<(Assignment, bool)>)
    ensures
        r@.len() == two_pow(free_vars(expr@).len()),
        forall|k: int|
            0 <= k < r@.len() ==> (#[trigger] r@[k]).0@.dom() == free_vars(expr@) && r@[k].1
                == eval(expr@, r@[k].0@),
        forall|j: int, k: int|
            0 <= j < r@.len() && 0 <= k < r@.len() && j != k ==> (#[trigger] r@[j]).0@ != (
            #[trigger] r@[k]).0@,
        forall|m: Map<Seq<char>, bool>|
            m.dom() == free_vars(expr@) ==> exists|k: int| 0 <= k < r@.len() && (#[trigger] r@[k]).0@ == m,
{
    let vars = get_vars(expr);
    let ghost vs = names(vars@);
    let mut tables = make_table(&vars);
    proof {
        lemma_names_len(vars@);
    }
    let mut out: Vec<(Assignment, bool)> = Vec::new();
    while tables.len() > 0
        invariant
            vs == names(vars@),
            vs.no_duplicates(),
            vs.to_set() == free_vars(expr@),
            tables@.len() + out@.len() == two_pow(vars@.len() as nat),
            forall|k: int|
                0 <= k < tables@.len() ==> #[trigger] tables@[k]@ == row_of(vs, (out@.len() + k) as nat),
            forall|k: int|
                0 <= k < out@.len() ==> (#[trigger] out@[k]).0@ == row_of(vs, k as nat) && out@[k].1
                    == eval(expr@, out@[k].0@),
        decreases tables@.len(),
    {
        let row = tables.remove(0);
        proof {
            lemma_row_domain(vs, out@.len() as nat);
        }
        let value = interpret_(expr, &row);
        out.push((row, value));
    }
    proof {
        assert forall|k: int| 0 <= k < out@.len() implies (#[trigger] out@[k]).0@.dom() == free_vars(expr@) by {
            lemma_row_domain(vs, k as nat);
        }
        assert forall|j: int, k: int|
            0 <= j < out@.len() && 0 <= k < out@.len() && j != k implies (#[trigger] out@[j]).0@ != (
            #[trigger] out@[k]).0@ by {
            lemma_rows_distinct(vs, j as nat, k as nat);
        }
        assert forall|m: Map<Seq<char>, bool>| m.dom() == free_vars(expr@) implies exists|k: int|
            0 <= k < out@.len() && (#[trigger] out@[k]).0@ == m by {
            lemma_row_index(vs, m);
            assert(m.restrict(vs.to_set()) =~= m);
            let k = index_of(vs, m) as int;
            assert(out@[k].0@ == m);
        }
    }
    out
}

/// The variables that occur in any formula of a program.
pub open spec fn program_vars(p: Seq<(String, Expr)>) -> Set<Seq<char>>
    decreases p.len(),
{
    if p.len() == 0 {
        Set::empty()
    } else {
        program_vars(p.drop_last()).union(free_vars(p.last().1@))
    }
}

/// The variables of all formulas of `prog`, each once, in order of first occurrence.
pub fn program_vars_of(prog: &Vec<(String, Expr)>) -> (r: Vec<String>)
    ensures
        names(r@).no_duplicates(),
        names(r@).to_set() == program_vars(prog@),
{
    let mut set: Vec<String> = Vec::new();
    proof {
        assert(names(set@).to_set() =~= Set::<Seq<char>>::empty());
    }
    let mut i: usize = 0;
    while i < prog.len()
        invariant
            i <= prog@.len(),
            names(set@).no_duplicates(),
            names(set@).to_set() == program_vars(prog@.take(i as int)),
        decreases prog@.len() - i,
    {
        let vs = get_vars(&prog[i].1);
        add_names(&mut set, &vs);
        proof {
            assert(prog@.take(i + 1).drop_last() =~= prog@.take(i as int));
        }
        i = i + 1;
    }
    proof {
        assert(prog@.take(i as int) =~= prog@);
    }
    set
}

/// One truth table shared by all formulas of a program: the variables of the
/// program in lexicographic order, and for each assignment over them the value of every formula, in
/// program order.
pub fn program_table(prog: &Vec<(String, Expr)>) -> (r: (Vec<String>, Vec<(Assignment, Vec<bool>)>))
    ensures
        sorted(names(r.0@)),
        names(r.0@).no_duplicates(),
        names(r.0@).to_set() == program_vars(prog@),
        r.1@.len() == two_pow(r.0@.len() as nat),
        forall|k: int|
            0 <= k < r.1@.len() ==> (#[trigger] r.1@[k]).0@ == row_of(names(r.0@), k as nat),
        forall|k: int, i: int|
            0 <= k < r.1@.len() && 0 <= i < prog@.len() ==> (#[trigger] r.1@[k]).1@.len()
                == prog@.len() && r.1@[k].1@[i] == eval(#[trigger] prog@[i].1@, r.1@[k].0@),
{
    let found = program_vars_of(prog);
    let vars = sort_names(&found);
    let ghost vs = names(vars@);
    let mut tables = make_table(&vars);
    let mut out: Vec<(Assignment, Vec<bool>)> = Vec::new();
    while tables.len() > 0
        invariant
            vs == names(vars@),
            vs.to_set() == program_vars(prog@),
            tables@.len() + out@.len() == two_pow(vars@.len() as nat),
            forall|k: int|
                0 <= k < tables@.len() ==> #[trigger] tables@[k]@ == row_of(vs, (out@.len() + k) as nat),
            forall|k: int|
                0 <= k < out@.len() ==> (#[trigger] out@[k]).0@ == row_of(vs, k as nat),
            forall|k: int, i: int|
                0 <= k < out@.len() && 0 <= i < prog@.len() ==> (#[trigger] out@[k]).1@.len()
                    == prog@.len() && out@[k].1@[i] == eval(#[trigger] prog@[i].1@, out@[k].0@),
        decreases tables@.len(),
    {
        let row = tables.remove(0);
        proof {
            lemma_row_domain(vs, out@.len() as nat);
        }
        let mut results: Vec<bool> = Vec::new();
        let mut i: usize = 0;
        while i < prog.len()
            invariant
                i <= prog@.len(),
                row@.dom() == program_vars(prog@),
                results@.len() == i,
                forall|m: int| 0 <= m < i ==> results@[m] == eval(#[trigger] prog@[m].1@, row@),
            decreases prog@.len() - i,
        {
            proof {
                lemma_program_vars_contains(prog@, i as int);
            }
            let value = interpret_(&prog[i].1, &row);
            results.push(value);
            i = i + 1;
        }
        out.push((row, results));
    }
    (vars, out)
}

proof fn lemma_program_vars_contains(p: Seq<(String, Expr)>, i: int)
    requires
        0 <= i < p.len(),
    ensures
        free_vars(p[i].1@).subset_of(program_vars(p)),
    decreases p.len(),
{
    if i < p.len() - 1 {
        lemma_program_vars_contains(p.drop_last(), i);
    }
}

} // verus!
