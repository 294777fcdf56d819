//! The formula tree, variable assignments, evaluation and free variables.

use vstd::prelude::*;

verus! {

/// A propositional formula as read from text.
#[derive(Debug, PartialEq, Eq)]
pub enum Expr {
    True,
    False,
    Term(String),
    Not(Box<Expr>),
    And(Box<Expr>, Box<Expr>),
    Or(Box<Expr>, Box<Expr>),
    Imply(Box<Expr>, Box<Expr>),
    Equiv(Box<Expr>, Box<Expr>),
}

/// The mathematical form of an `Expr`: variable names are character sequences.
pub enum Formula {
    Lit(bool),
    Var(Seq<char>),
    Not(Box<Formula>),
    And(Box<Formula>, Box<Formula>),
    Or(Box<Formula>, Box<Formula>),
    Imply(Box<Formula>, Box<Formula>),
    Equiv(Box<Formula>, Box<Formula>),
}

pub open spec fn formula_of(e: Expr) -> Formula
    decreases e,
{
    match e {
        Expr::True => Formula::Lit(true),
        Expr::False => Formula::Lit(false),
        Expr::Term(t) => Formula::Var(t@),
        Expr::Not(x) => Formula::Not(Box::new(formula_of(*x))),
        Expr::And(l, r) => Formula::And(Box::new(formula_of(*l)), Box::new(formula_of(*r))),
        Expr::Or(l, r) => Formula::Or(Box::new(formula_of(*l)), Box::new(formula_of(*r))),
        Expr::Imply(l, r) => Formula::Imply(Box::new(formula_of(*l)), Box::new(formula_of(*r))),
        Expr::Equiv(l, r) => Formula::Equiv(Box::new(formula_of(*l)), Box::new(formula_of(*r))),
    }
}

impl View for Expr {
    type V = Formula;

    open spec fn view(&self) -> Formula {
        formula_of(*self)
    }
}

/// The truth value of `f` when each variable takes its value in `a`.
pub open spec fn eval(f: Formula, a: Map<Seq<char>, bool>) -> bool
    decreases f,
{
    match f {
        Formula::Lit(b) => b,
        Formula::Var(n) => a[n],
        Formula::Not(x) => !eval(*x, a),
        Formula::And(l, r) => eval(*l, a) && eval(*r, a),
        Formula::Or(l, r) => eval(*l, a) || eval(*r, a),
        Formula::Imply(l, r) => !eval(*l, a) || eval(*r, a),
        Formula::Equiv(l, r) => eval(*l, a) == eval(*r, a),
    }
}

/// The set of variable names that occur in `f`.
pub open spec fn free_vars(f: Formula) -> Set<Seq<char>>
    decreases f,
{
    match f {
        Formula::Lit(_) => Set::empty(),
        Formula::Var(n) => set![n],
        Formula::Not(x) => free_vars(*x),
        Formula::And(l, r) => free_vars(*l).union(free_vars(*r)),
        Formula::Or(l, r) => free_vars(*l).union(free_vars(*r)),
        Formula::Imply(l, r) => free_vars(*l).union(free_vars(*r)),
        Formula::Equiv(l, r) => free_vars(*l).union(free_vars(*r)),
    }
}

/// Every occurrence of a variable in `f`, left to right.
pub open spec fn var_list(f: Formula) -> Seq<Seq<char>>
    decreases f,
{
    match f {
        Formula::Lit(_) => Seq::empty(),
        Formula::Var(n) => seq![n],
        Formula::Not(x) => var_list(*x),
        Formula::And(l, r) => var_list(*l) + var_list(*r),
        Formula::Or(l, r) => var_list(*l) + var_list(*r),
        Formula::Imply(l, r) => var_list(*l) + var_list(*r),
        Formula::Equiv(l, r) => var_list(*l) + var_list(*r),
    }
}

/// The views of a sequence of strings.
pub open spec fn names(v: Seq<String>) -> Seq<Seq<char>> {
    v.map_values(|s: String| s@)
}

pub proof fn lemma_var_list_set(f: Formula)
    ensures
        var_list(f).to_set() == free_vars(f),
    decreases f,
{
    match f {
        Formula::Lit(_) => {
            assert(var_list(f).to_set() =~= free_vars(f));
        },
        Formula::Var(n) => {
            assert(var_list(f).to_set() =~= free_vars(f)) by {
                assert(var_list(f)[0] == n);
            }
        },
        Formula::Not(x) => {
            lemma_var_list_set(*x);
        },
        Formula::And(l, r) | Formula::Or(l, r) | Formula::Imply(l, r) | Formula::Equiv(l, r) => {
            lemma_var_list_set(*l);
            lemma_var_list_set(*r);
            lemma_concat_to_set(var_list(*l), var_list(*r));
        },
    }
}

proof fn lemma_concat_to_set(a: Seq<Seq<char>>, b: Seq<Seq<char>>)
    ensures
        (a + b).to_set() == a.to_set().union(b.to_set()),
{
    assert forall|x: Seq<char>| (a + b).contains(x) <==> a.contains(x) || b.contains(x) by {
        if a.contains(x) {
            let i = choose|i: int| 0 <= i < a.len() && a[i] == x;
            assert((a + b)[i] == x);
        }
        if b.contains(x) {
            let i = choose|i: int| 0 <= i < b.len() && b[i] == x;
            assert((a + b)[a.len() + i] == x);
        }
        if (a + b).contains(x) {
            let i = choose|i: int| 0 <= i < (a + b).len() && (a + b)[i] == x;
            if i < a.len() {
                assert(a[i] == x);
            } else {
                assert(b[i - a.len()] == x);
            }
        }
    }
    assert((a + b).to_set() =~= a.to_set().union(b.to_set()));
}

/// The map that a list of bindings stands for: a later binding of a name wins.
pub open spec fn map_of(s: Seq<(String, bool)>) -> Map<Seq<char>, bool>
    decreases s.len(),
{
    if s.len() == 0 {
        Map::empty()
    } else {
        map_of(s.drop_last()).insert(s.last().0@, s.last().1)
    }
}

proof fn lemma_map_of_prefix(s: Seq<(String, bool)>, i: int, k: Seq<char>)
    requires
        0 <= i <= s.len(),
        forall|j: int| i <= j < s.len() ==> s[j].0@ != k,
    ensures
        map_of(s).contains_key(k) == map_of(s.take(i)).contains_key(k),
        map_of(s).contains_key(k) ==> map_of(s)[k] == map_of(s.take(i))[k],
    decreases s.len(),
{
    if i == s.len() {
        assert(s.take(i) =~= s);
    } else {
        assert(s.drop_last().take(i) =~= s.take(i));
        lemma_map_of_prefix(s.drop_last(), i, k);
    }
}

/// A binding of variable names to truth values.
pub struct Assignment {
    entries: Vec<(String, bool)>,
}

impl View for Assignment {
    type V = Map<Seq<char>, bool>;

    closed spec fn view(&self) -> Map<Seq<char>, bool> {
        map_of(self.entries@)
    }
}

impl Assignment {
    /// The assignment that binds no variable.
    pub fn new() -> (r: Assignment)
        ensures
            r@ == Map::<Seq<char>, bool>::empty(),
    {
        Assignment { entries: Vec::new() }
    }

    /// Binds `name` to `value`, replacing an earlier binding of it.
    pub fn insert(&mut self, name: String, value: bool)
        ensures
            final(self)@ == old(self)@.insert(name@, value),
    {
        self.entries.push((name, value));
        assert(self.entries@.drop_last() =~= old(self).entries@);
    }

    /// The value bound to `name`, if any.
    pub fn get(&self, name: &String) -> (r: Option<bool>)
        ensures
            r == (if self@.contains_key(name@) {
                Some(self@[name@])
            } else {
                None::<bool>
            }),
    {
        let mut i: usize = self.entries.len();
        while i > 0
            invariant
                i <= self.entries@.len(),
                forall|j: int| i <= j < self.entries@.len() ==> self.entries@[j].0@ != name@,
            decreases i,
        {
            if self.entries[i - 1].0 == *name {
                proof {
                    let s = self.entries@;
                    lemma_map_of_prefix(s, i as int, name@);
                    assert(s.take(i as int).drop_last() =~= s.take(i - 1));
                }
                return Some(self.entries[i - 1].1);
            }
            i = i - 1;
        }
        proof {
            lemma_map_of_prefix(self.entries@, 0, name@);
        }
        None
    }

    /// A copy of this assignment.
    pub fn duplicate(&self) -> (r: Assignment)
        ensures
            r@ == self@,
    {
        let mut entries: Vec<(String, bool)> = Vec::new();
        let mut i: usize = 0;
        while i < self.entries.len()
            invariant
                i <= self.entries@.len(),
                entries@ == self.entries@.take(i as int),
            decreases self.entries@.len() - i,
        {
            let name = self.entries[i].0.clone();
            entries.push((name, self.entries[i].1));
            i = i + 1;
            assert(entries@ =~= self.entries@.take(i as int));
        }
        assert(self.entries@.take(i as int) =~= self.entries@);
        Assignment { entries }
    }
}

/// The value of `expr` under `vars`, which binds every variable of `expr`.
pub fn interpret_(expr: &Expr, vars: &Assignment) -> (r: bool)
    requires
        free_vars(expr@).subset_of(vars@.dom()),
    ensures
        r == eval(expr@, vars@),
    decreases expr,
{
    match expr {
        Expr::True => true,
        Expr::False => false,
        Expr::Term(t) => {
            match vars.get(t) {
                Some(v) => v,
                // not reached: `t` is a variable of `expr`, so it is bound
                None => false,
            }
        },
        Expr::Not(e) => !interpret_(e, vars),
        Expr::And(l, r) => {
            let a = interpret_(l, vars);
            let b = interpret_(r, vars);
            a && b
        },
        Expr::Or(l, r) => {
            let a = interpret_(l, vars);
            let b = interpret_(r, vars);
            a || b
        },
        Expr::Imply(l, r) => {
            let a = interpret_(l, vars);
            let b = interpret_(r, vars);
            !a || b
        },
        Expr::Equiv(l, r) => {
            let a = interpret_(l, vars);
            let b = interpret_(r, vars);
            a == b
        },
    }
}

/// `true` is the identity of conjunction and `false` that of disjunction.
pub proof fn lemma_identity(x: Formula, a: Map<Seq<char>, bool>)
    ensures
        eval(Formula::And(Box::new(Formula::Lit(true)), Box::new(x)), a) == eval(x, a),
        eval(Formula::Or(Box::new(Formula::Lit(false)), Box::new(x)), a) == eval(x, a),
{
    reveal_with_fuel(eval, 2);
}

/// An implication has the value of the disjunction of the negated premise and
/// the conclusion.
pub proof fn lemma_imply_as_or(p: Formula, q: Formula, a: Map<Seq<char>, bool>)
    ensures
        eval(Formula::Imply(Box::new(p), Box::new(q)), a) == eval(
            Formula::Or(Box::new(Formula::Not(Box::new(p))), Box::new(q)),
            a,
        ),
{
    reveal_with_fuel(eval, 2);
}

/// An equivalence holds exactly when both sides have the same value.
pub proof fn lemma_equiv_same_value(p: Formula, q: Formula, a: Map<Seq<char>, bool>)
    ensures
        eval(Formula::Equiv(Box::new(p), Box::new(q)), a) == (eval(p, a) == eval(q, a)),
{
}

/// A variable of a formula that an assignment does not bind.
#[derive(Debug, PartialEq, Eq)]
pub struct UnboundVariable {
    pub name: String,
}

/// The value of `expr` under `vars`; an error names a variable of `expr` that
/// `vars` does not bind, and is returned before anything is evaluated.
pub fn interpret(expr: &Expr, vars: &Assignment) -> (r: Result<bool, UnboundVariable>)
    ensures
        r is Ok <==> free_vars(expr@).subset_of(vars@.dom()),
        r matches Ok(b) ==> b == eval(expr@, vars@),
        r matches Err(e) ==> free_vars(expr@).contains(e.name@) && !vars@.contains_key(e.name@),
{
    let symbols = get_vars(expr);
    let mut i: usize = 0;
    while i < symbols.len()
        invariant
            i <= symbols@.len(),
            names(symbols@).to_set() == free_vars(expr@),
            forall|j: int| 0 <= j < i ==> vars@.contains_key(#[trigger] symbols@[j]@),
        decreases symbols@.len() - i,
    {
        if vars.get(&symbols[i]).is_none() {
            proof {
                assert(names(symbols@)[i as int] == symbols@[i as int]@);
            }
            return Err(UnboundVariable { name: symbols[i].clone() });
        }
        i = i + 1;
    }
    proof {
        assert forall|n: Seq<char>| free_vars(expr@).contains(n) implies vars@.contains_key(n) by {
            assert(names(symbols@).contains(n));
            let j = choose|j: int| 0 <= j < names(symbols@).len() && names(symbols@)[j] == n;
            assert(symbols@[j]@ == n);
        }
    }
    Ok(interpret_(expr, vars))
}

/// Every occurrence of a variable in `expr`, left to right.
pub fn get_vars_(expr: &Expr) -> (r: Vec<String>)
    ensures
        names(r@) == var_list(expr@),
    decreases expr,
{
    match expr {
        Expr::True => Vec::new(),
        Expr::False => Vec::new(),
        Expr::Term(t) => {
            let r = vec![t.clone()];
            assert(names(r@) =~= var_list(expr@));
            r
        },
        Expr::Not(e) => get_vars_(e),
        Expr::And(l, r) | Expr::Or(l, r) | Expr::Imply(l, r) | Expr::Equiv(l, r) => {
            let mut l1 = get_vars_(l);
            let mut r1 = get_vars_(r);
            let ghost a = l1@;
            let ghost b = r1@;
            l1.append(&mut r1);
            assert(names(l1@) =~= names(a) + names(b));
            l1
        },
    }
}

/// Appends to `set` each name of `items` that it does not hold yet, in order.
pub fn add_names(set: &mut Vec<String>, items: &Vec<String>)
    requires
        names(old(set)@).no_duplicates(),
    ensures
        names(final(set)@).no_duplicates(),
        names(final(set)@).to_set() == names(old(set)@).to_set().union(names(items@).to_set()),
{
    let ghost start = names(set@).to_set();
    let mut i: usize = 0;
    proof {
        assert(names(items@).take(0).to_set() =~= Set::<Seq<char>>::empty());
        assert(start.union(Set::empty()) =~= start);
    }
    while i < items.len()
        invariant
            i <= items@.len(),
            names(set@).no_duplicates(),
            names(set@).to_set() == start.union(names(items@).take(i as int).to_set()),
        decreases items@.len() - i,
    {
        let mut found = false;
        let mut j: usize = 0;
        while j < set.len()
            invariant
                i < items@.len(),
                j <= set@.len(),
                found <==> exists|k: int| 0 <= k < j && set@[k]@ == items@[i as int]@,
            decreases set@.len() - j,
        {
            if set[j] == items[i] {
                found = true;
            }
            j = j + 1;
        }
        let ghost before = set@;
        let ghost x = items@[i as int]@;
        proof {
            assert(names(items@).take(i + 1) =~= names(items@).take(i as int).push(x));
            names(items@).take(i as int).lemma_push_to_set_commute(x);
            assert(start.union(names(items@).take(i as int).to_set().insert(x)) =~= start.union(
                names(items@).take(i as int).to_set(),
            ).insert(x));
        }
        if !found {
            set.push(items[i].clone());
            proof {
                assert(names(set@) =~= names(before).push(x));
                names(before).lemma_push_to_set_commute(x);
                assert forall|k: int| 0 <= k < names(before).len() implies names(before)[k]
                    != x by {
                    assert(before[k]@ == names(before)[k]);
                }
            }
        } else {
            proof {
                let k = choose|k: int| 0 <= k < j && set@[k]@ == x;
                assert(names(set@)[k] == x);
                assert(names(set@).to_set().insert(x) =~= names(set@).to_set());
            }
        }
        i = i + 1;
    }
    proof {
        assert(names(items@).take(i as int) =~= names(items@));
    }
}

/// The distinct variables of `expr`, each once, in order of first occurrence.
pub fn get_vars(expr: &Expr) -> (r: Vec<String>)
    ensures
        names(r@).no_duplicates(),
        names(r@).to_set() == free_vars(expr@),
{
    let all = get_vars_(expr);
    let mut set: Vec<String> = Vec::new();
    proof {
        assert(names(set@).to_set() =~= Set::<Seq<char>>::empty());
    }
    add_names(&mut set, &all);
    proof {
        lemma_var_list_set(expr@);
        assert(Set::<Seq<char>>::empty().union(free_vars(expr@)) =~= free_vars(expr@));
    }
    set
}

} // verus!
