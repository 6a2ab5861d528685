//! The calculator core: an RPN stack machine and an algebraic front end that
//! feeds it.
//!
//! Numbers are kept abstract: the evaluator is generic over the number type `N`,
//! and the arithmetic on numbers (turning a digit into a number, adding two
//! numbers) is handed in by the caller as closures.  The evaluator decides
//! everything else: which tokens are pushed, when an addition happens, in which
//! order its operands are taken, and when the expression is rejected.
use vstd::multiset::Multiset;
use vstd::prelude::*;

verus! {

/// A value on the evaluation stack.
#[derive(Debug, PartialEq, PartialOrd, Clone, Copy)]
pub enum Value<N> {
    Real(N),
    Complex(N, N),
}

/// An input to the RPN machine: a value to push, or an operator to apply.
#[derive(Debug, Clone, Copy)]
pub enum Token<N> {
    Value(Value<N>),
    Operator(char),
}

/// The error reported when an expression cannot be evaluated.
#[derive(Debug, PartialEq, Eq, Structural)]
pub struct Error {}

/// The value of a decimal digit character, as `char::to_digit(10)` gives it.
pub open spec fn spec_digit_value(c: char) -> Option<u32> {
    if '0' <= c && c <= '9' {
        Some((c as u32 - '0' as u32) as u32)
    } else {
        None
    }
}

/// Returns the value of `c` when it is a decimal digit.
pub fn digit_value(c: char) -> (r: Option<u32>)
    ensures
        r == spec_digit_value(c),
        r is Some <==> 48 <= c as u32 <= 57,
        r matches Some(d) ==> d + 48 == c as u32,
{
    if '0' <= c && c <= '9' {
        Some(c as u32 - '0' as u32)
    } else {
        None
    }
}

/// What one step of the RPN machine does: `stack` and `token` before, `result`
/// and `stack2` after.  An addition pops the top value `a`, then the value `b`
/// below it, and pushes `plus(a, b)`.
pub open spec fn rpn_step<N, F: Fn(N, N) -> N>(
    plus: F,
    stack: Seq<Value<N>>,
    token: Token<N>,
    result: Result<(), Error>,
    stack2: Seq<Value<N>>,
) -> bool {
    match token {
        Token::Value(v) => result == Ok::<(), Error>(()) && stack2 == stack.push(v),
        Token::Operator(c) => {
            if stack.len() < 2 || c != '+' {
                result == Err::<(), Error>(Error {}) && stack2 == stack
            } else {
                let rest = stack.take(stack.len() - 2);
                match (stack.last(), stack[stack.len() - 2]) {
                    (Value::Real(a), Value::Real(b)) => {
                        &&& result == Ok::<(), Error>(())
                        &&& stack2.len() == stack.len() - 1
                        &&& stack2.take(stack.len() - 2) == rest
                        &&& stack2.last() is Real
                        &&& plus.ensures((a, b), stack2.last()->Real_0)
                    },
                    _ => result == Err::<(), Error>(Error {}) && stack2 == rest,
                }
            }
        },
    }
}

/// Applies one token to the RPN stack.
///
/// A value is pushed.  The operator `+` pops the top two values and pushes their
/// sum (top value first) when both are real; it fails when the stack holds fewer
/// than two values (the stack is left alone), and when either operand is complex
/// (both operands stay popped).  Any other operator fails and leaves the stack
/// alone.
pub fn rpn_evaluate<N: Copy, F: Fn(N, N) -> N>(
    rpn_stack: &mut Vec<Value<N>>,
    token: &Token<N>,
    plus: &F,
) -> (r: Result<(), Error>)
    requires
        forall|a: N, b: N| plus.requires((a, b)),
    ensures
        rpn_step(*plus, old(rpn_stack)@, *token, r, final(rpn_stack)@),
{
    match token {
        Token::Value(v) => {
            rpn_stack.push(*v);
        },
        Token::Operator(c) => {
            if rpn_stack.len() < 2 {
                return Err(Error {});
            }
            if *c == '+' {
                let v0 = rpn_stack.pop().unwrap();
                let v1 = rpn_stack.pop().unwrap();
                match (v0, v1) {
                    (Value::Real(a), Value::Real(b)) => {
                        let s = plus(a, b);
                        rpn_stack.push(Value::Real(s));
                        assert(rpn_stack@.take(old(rpn_stack)@.len() - 2) =~= old(
                            rpn_stack,
                        )@.take(old(rpn_stack)@.len() - 2));
                    },
                    _ => {
                        assert(rpn_stack@ =~= old(rpn_stack)@.take(old(rpn_stack)@.len() - 2));
                        return Err(Error {});
                    },
                }
            } else {
                return Err(Error {});
            }
        },
    }
    Ok(())
}

/// The digits of `s`, in order, by value.
pub open spec fn digits_of(s: Seq<char>) -> Seq<u32>
    decreases s.len(),
{
    if s.len() == 0 {
        Seq::empty()
    } else {
        match spec_digit_value(s.last()) {
            Some(d) => digits_of(s.drop_last()).push(d),
            None => digits_of(s.drop_last()),
        }
    }
}

/// How many `+` signs `s` holds.
pub open spec fn plus_count(s: Seq<char>) -> nat
    decreases s.len(),
{
    if s.len() == 0 {
        0
    } else if s.last() == '+' {
        plus_count(s.drop_last()) + 1
    } else {
        plus_count(s.drop_last())
    }
}

/// `r` is a possible result of folding `vals` with `plus`, starting from the last
/// value and adding each earlier one in turn: `plus(.. plus(plus(v[k-1], v[k-2]), v[k-3]) .., v[0])`.
pub open spec fn adds_up_to<N, F: Fn(N, N) -> N>(plus: F, vals: Seq<N>, r: N) -> bool
    decreases vals.len(),
{
    if vals.len() == 0 {
        false
    } else if vals.len() == 1 {
        r == vals[0]
    } else {
        exists|m: N| adds_up_to(plus, vals.drop_first(), m) && #[trigger] plus.ensures((m, vals[0]), r)
    }
}

/// `vals` are possible results of `digit` on `ds`, one for one.
pub open spec fn digit_results<N, D: Fn(u32) -> N>(digit: D, ds: Seq<u32>, vals: Seq<N>) -> bool {
    &&& vals.len() == ds.len()
    &&& forall|i: int| 0 <= i < ds.len() ==> #[trigger] digit.ensures((ds[i],), vals[i])
}

/// `r` is a possible value of an expression whose digits are `ds`, once all its
/// additions have been applied.
pub open spec fn evaluates_to<N, D: Fn(u32) -> N, F: Fn(N, N) -> N>(
    digit: D,
    plus: F,
    ds: Seq<u32>,
    r: N,
) -> bool {
    exists|vals: Seq<N>| digit_results(digit, ds, vals) && #[trigger] adds_up_to(plus, vals, r)
}

/// Evaluates an algebraic expression.
///
/// Each decimal digit is a number, `+` adds, and every other character is
/// skipped.  The digits are pushed in order and the additions are applied after
/// the last character, each one to the top two values of the stack.  The
/// expression is accepted exactly when it holds one digit more than it holds
/// `+` signs; its value is then the sum of its digits, added from the last digit
/// back to the first.
pub fn algebraic_evaluate<N: Copy, D: Fn(u32) -> N, F: Fn(N, N) -> N>(
    expression: &str,
    digit: &D,
    plus: &F,
) -> (r: Result<Value<N>, Error>)
    requires
        forall|d: u32| digit.requires((d,)),
        forall|a: N, b: N| plus.requires((a, b)),
    ensures
        r is Ok <==> digits_of(expression@).len() == plus_count(expression@) + 1,
        r matches Ok(v) ==> v is Real && evaluates_to(
            *digit,
            *plus,
            digits_of(expression@),
            v->Real_0,
        ),
{
    let mut rpn_stack: Vec<Value<N>> = Vec::new();
    let mut operator_stack: Vec<char> = Vec::new();
    let ghost mut vals: Seq<N> = Seq::empty();

    broadcast use vstd::string::axiom_spec_iter;
    for c in it: expression.chars()
        invariant
            forall|d: u32| digit.requires((d,)),
            forall|a: N, b: N| plus.requires((a, b)),
            it.seq() == expression@,
            digit_results(*digit, digits_of(it.seq().take(it.index())), vals),
            rpn_stack@ == vals.map_values(|v: N| Value::Real(v)),
            operator_stack@.len() == plus_count(it.seq().take(it.index())),
            forall|i: int| 0 <= i < operator_stack@.len() ==> operator_stack@[i] == '+',
    {
        let ghost prefix = it.seq().take(it.index());
        assert(it.seq().take(it.index() + 1).drop_last() == prefix);
        if let Some(n) = digit_value(c) {
            let v = digit(n);
            if rpn_evaluate(&mut rpn_stack, &Token::Value(Value::Real(v)), plus).is_err() {
                return Err(Error {});
            }
            proof {
                vals = vals.push(v);
            }
            assert(rpn_stack@ =~= vals.map_values(|v: N| Value::Real(v)));
        } else if c == '+' {
            operator_stack.push(c);
        }
    }
    assert(expression@.take(expression@.len() as int) == expression@);
    let ghost ds = digits_of(expression@);
    let ghost k = ds.len();
    let ghost p = plus_count(expression@);

    let ghost mut applied: nat = 0;
    while operator_stack.len() > 0
        invariant
            forall|a: N, b: N| plus.requires((a, b)),
            ds == digits_of(expression@),
            p == plus_count(expression@),
            digit_results(*digit, ds, vals),
            k == ds.len(),
            k == vals.len(),
            applied + operator_stack@.len() == p,
            forall|i: int| 0 <= i < operator_stack@.len() ==> operator_stack@[i] == '+',
            applied <= k,
            applied > 0 ==> k >= applied + 1,
            rpn_stack@.len() == k - applied,
            forall|i: int|
                0 <= i < k - applied - 1 ==> rpn_stack@[i] == Value::Real(vals[i]),
            k > applied ==> rpn_stack@.last() is Real && adds_up_to(
                *plus,
                vals.subrange(k - applied - 1, k as int),
                rpn_stack@.last()->Real_0,
            ),
        decreases operator_stack@.len(),
    {
        let op = operator_stack.pop().unwrap();
        let ghost before = rpn_stack@;
        proof {
            if before.len() >= 2 {
                assert(before[before.len() - 2] == Value::Real(vals[k - applied - 2]));
            }
        }
        let r = rpn_evaluate(&mut rpn_stack, &Token::Operator(op), plus);
        if r.is_err() {
            assert(before.len() < 2);
            return Err(Error {});
        }
        proof {
            let j = k - applied - 1;
            let t = before.last()->Real_0;
            let s = rpn_stack@.last()->Real_0;
            assert(before[before.len() - 2] == Value::Real(vals[j - 1]));
            assert(plus.ensures((t, vals[j - 1]), s));
            assert(vals.subrange(j - 1, k as int).drop_first() =~= vals.subrange(j, k as int));
            assert(vals.subrange(j - 1, k as int)[0] == vals[j - 1]);
            assert(adds_up_to(*plus, vals.subrange(j - 1, k as int).drop_first(), t));
            assert(adds_up_to(*plus, vals.subrange(j - 1, k as int), s));
            assert forall|i: int| 0 <= i < k - (applied + 1) - 1 implies rpn_stack@[i]
                == Value::Real(vals[i]) by {
                assert(rpn_stack@.take(before.len() - 2)[i] == before.take(before.len() - 2)[i]);
            }
            applied = applied + 1;
        }
    }

    match rpn_stack.pop() {
        Some(v) => {
            if rpn_stack.len() == 0 {
                proof {
                    assert(vals.subrange(0, k as int) =~= vals);
                }
                Ok(v)
            } else {
                Err(Error {})
            }
        },
        None => Err(Error {}),
    }
}

} // verus!

verus! {

/// Whether `c` takes part in an expression: a decimal digit or `+`.
pub open spec fn is_significant(c: char) -> bool {
    spec_digit_value(c) is Some || c == '+'
}

/// The characters of `s` that take part in an expression, in order.
pub open spec fn significant_chars(s: Seq<char>) -> Seq<char> {
    s.filter(|c: char| is_significant(c))
}

/// Removing every character other than the digits and `+` keeps the digits, in
/// order, and the number of `+` signs; since the acceptance and the value of an
/// expression depend on these alone, its result is kept as well.
pub proof fn lemma_other_characters_do_not_count(s: Seq<char>)
    ensures
        digits_of(significant_chars(s)) == digits_of(s),
        plus_count(significant_chars(s)) == plus_count(s),
    decreases s.len(),
{
    reveal(Seq::filter);
    if s.len() > 0 {
        lemma_other_characters_do_not_count(s.drop_last());
        let f = significant_chars(s);
        let f0 = significant_chars(s.drop_last());
        if is_significant(s.last()) {
            assert(f == f0.push(s.last()));
            assert(f.drop_last() =~= f0);
        } else {
            assert(f == f0);
        }
    }
}

/// Two expressions with the same digits and the same number of `+` signs are
/// accepted alike, and have the same possible values.
pub proof fn lemma_same_digits_same_result<N, D: Fn(u32) -> N, F: Fn(N, N) -> N>(
    digit: D,
    plus: F,
    s: Seq<char>,
    t: Seq<char>,
    r: N,
)
    requires
        digits_of(s) == digits_of(t),
        plus_count(s) == plus_count(t),
    ensures
        (digits_of(s).len() == plus_count(s) + 1) == (digits_of(t).len() == plus_count(t) + 1),
        evaluates_to(digit, plus, digits_of(s), r) == evaluates_to(digit, plus, digits_of(t), r),
{
}

proof fn lemma_digit_value_injective(a: char, b: char)
    requires
        spec_digit_value(a) is Some,
        spec_digit_value(a) == spec_digit_value(b),
    ensures
        a == b,
{
    assert(a as u32 == b as u32);
}

/// The number of `+` signs is the count of `+` among the characters.
pub proof fn lemma_plus_count_is_multiplicity(s: Seq<char>)
    ensures
        plus_count(s) == s.to_multiset().count('+'),
    decreases s.len(),
{
    broadcast use vstd::seq_lib::group_to_multiset_ensures;
    broadcast use vstd::multiset::group_multiset_axioms;

    if s.len() == 0 {
        assert(s.to_multiset() =~= Multiset::empty());
    } else {
        lemma_plus_count_is_multiplicity(s.drop_last());
        assert(s.drop_last().push(s.last()) =~= s);
    }
}

/// The digit `c` occurs among the digit values as often as `c` occurs among
/// the characters.
pub proof fn lemma_digit_multiplicity(s: Seq<char>, c: char)
    requires
        spec_digit_value(c) is Some,
    ensures
        digits_of(s).to_multiset().count(spec_digit_value(c)->0) == s.to_multiset().count(c),
    decreases s.len(),
{
    broadcast use vstd::seq_lib::group_to_multiset_ensures;
    broadcast use vstd::multiset::group_multiset_axioms;

    if s.len() == 0 {
        assert(s.to_multiset() =~= Multiset::empty());
        assert(digits_of(s).to_multiset() =~= Multiset::empty());
    } else {
        lemma_digit_multiplicity(s.drop_last(), c);
        assert(s.drop_last().push(s.last()) =~= s);
        if spec_digit_value(s.last()) == spec_digit_value(c) {
            lemma_digit_value_injective(c, s.last());
        }
    }
}

/// A digit value occurs only where some character has it.
proof fn lemma_digit_has_source(s: Seq<char>, d: u32)
    requires
        digits_of(s).to_multiset().count(d) > 0,
    ensures
        exists|i: int| 0 <= i < s.len() && spec_digit_value(#[trigger] s[i]) == Some(d),
    decreases s.len(),
{
    broadcast use vstd::seq_lib::group_to_multiset_ensures;
    broadcast use vstd::multiset::group_multiset_axioms;

    if s.len() == 0 {
        assert(digits_of(s).to_multiset() =~= Multiset::empty());
    } else {
        if spec_digit_value(s.last()) == Some(d) {
            assert(spec_digit_value(s[s.len() - 1]) == Some(d));
        } else {
            lemma_digit_has_source(s.drop_last(), d);
            let i = choose|i: int|
                0 <= i < s.drop_last().len() && spec_digit_value(#[trigger] s.drop_last()[i])
                    == Some(d);
            assert(s[i] == s.drop_last()[i]);
        }
    }
}

/// Reordering the characters of an expression keeps its digits (as a
/// multiset) and its number of `+` signs; so it keeps whether the expression
/// is accepted, and, for an addition that does not depend on the order of its
/// operands, its value.
pub proof fn lemma_reordering_keeps_digits(s: Seq<char>, t: Seq<char>)
    requires
        s.to_multiset() == t.to_multiset(),
    ensures
        digits_of(s).to_multiset() == digits_of(t).to_multiset(),
        plus_count(s) == plus_count(t),
        digits_of(s).len() == digits_of(t).len(),
{
    broadcast use vstd::seq_lib::group_to_multiset_ensures;

    lemma_plus_count_is_multiplicity(s);
    lemma_plus_count_is_multiplicity(t);
    assert forall|d: u32|
        #[trigger] digits_of(s).to_multiset().count(d) == digits_of(t).to_multiset().count(d) by {
        if digits_of(s).to_multiset().count(d) > 0 {
            lemma_digit_has_source(s, d);
            let i = choose|i: int| 0 <= i < s.len() && spec_digit_value(#[trigger] s[i]) == Some(d);
            lemma_digit_multiplicity(s, s[i]);
            lemma_digit_multiplicity(t, s[i]);
        } else if digits_of(t).to_multiset().count(d) > 0 {
            lemma_digit_has_source(t, d);
            let i = choose|i: int| 0 <= i < t.len() && spec_digit_value(#[trigger] t[i]) == Some(d);
            lemma_digit_multiplicity(s, t[i]);
            lemma_digit_multiplicity(t, t[i]);
        }
    }
    assert(digits_of(s).to_multiset() =~= digits_of(t).to_multiset());
    assert(digits_of(s).len() == digits_of(s).to_multiset().len());
    assert(digits_of(t).len() == digits_of(t).to_multiset().len());
}

} // verus!

verus! {

/// The value of an expression with digits `ds` when a digit `d` is the number
/// `g(d)` and the sum of `a` and `b` is `f(a, b)`: the fold of `evaluates_to`,
/// from the last digit back to the first.
pub open spec fn fold_digits<N>(f: spec_fn(N, N) -> N, g: spec_fn(u32) -> N, ds: Seq<u32>) -> N
    recommends
        ds.len() > 0,
    decreases ds.len(),
{
    if ds.len() <= 1 {
        g(ds[0])
    } else {
        f(fold_digits(f, g, ds.drop_first()), g(ds[0]))
    }
}

/// `digit` and `plus` compute the functions `g` and `f`.
pub open spec fn computes<N, D: Fn(u32) -> N, F: Fn(N, N) -> N>(
    digit: D,
    plus: F,
    g: spec_fn(u32) -> N,
    f: spec_fn(N, N) -> N,
) -> bool {
    &&& forall|d: u32, r: N| #[trigger] digit.ensures((d,), r) ==> r == g(d)
    &&& forall|a: N, b: N, r: N| #[trigger] plus.ensures((a, b), r) ==> r == f(a, b)
}

proof fn lemma_adds_up_to_fold<N, D: Fn(u32) -> N, F: Fn(N, N) -> N>(
    digit: D,
    plus: F,
    g: spec_fn(u32) -> N,
    f: spec_fn(N, N) -> N,
    ds: Seq<u32>,
    vals: Seq<N>,
    r: N,
)
    requires
        computes(digit, plus, g, f),
        digit_results(digit, ds, vals),
        adds_up_to(plus, vals, r),
    ensures
        ds.len() > 0,
        r == fold_digits(f, g, ds),
    decreases vals.len(),
{
    assert(digit.ensures((ds[0],), vals[0]));
    if vals.len() > 1 {
        let m = choose|m: N| adds_up_to(plus, vals.drop_first(), m) && #[trigger] plus.ensures(
            (m, vals[0]),
            r,
        );
        assert forall|i: int| 0 <= i < ds.drop_first().len() implies #[trigger] digit.ensures(
            (ds.drop_first()[i],),
            vals.drop_first()[i],
        ) by {
            assert(digit.ensures((ds[i + 1],), vals[i + 1]));
        }
        lemma_adds_up_to_fold(digit, plus, g, f, ds.drop_first(), vals.drop_first(), m);
    }
}

/// When `digit` and `plus` compute functions, an expression has at most one
/// value: the fold of its digits.
pub proof fn lemma_value_is_fold<N, D: Fn(u32) -> N, F: Fn(N, N) -> N>(
    digit: D,
    plus: F,
    g: spec_fn(u32) -> N,
    f: spec_fn(N, N) -> N,
    ds: Seq<u32>,
    r: N,
)
    requires
        computes(digit, plus, g, f),
        evaluates_to(digit, plus, ds, r),
    ensures
        r == fold_digits(f, g, ds),
{
    let vals = choose|vals: Seq<N>| digit_results(digit, ds, vals) && #[trigger] adds_up_to(plus, vals, r);
    lemma_adds_up_to_fold(digit, plus, g, f, ds, vals, r);
}

/// When `digit` and `plus` compute functions, removing the characters other
/// than the digits and `+` keeps the result of an expression: both are accepted
/// or both rejected, and accepted ones have the same value.
pub proof fn lemma_other_characters_same_result<N, D: Fn(u32) -> N, F: Fn(N, N) -> N>(
    digit: D,
    plus: F,
    g: spec_fn(u32) -> N,
    f: spec_fn(N, N) -> N,
    s: Seq<char>,
    r1: N,
    r2: N,
)
    requires
        computes(digit, plus, g, f),
        evaluates_to(digit, plus, digits_of(s), r1),
        evaluates_to(digit, plus, digits_of(significant_chars(s)), r2),
    ensures
        (digits_of(s).len() == plus_count(s) + 1) == (digits_of(significant_chars(s)).len()
            == plus_count(significant_chars(s)) + 1),
        r1 == r2,
{
    lemma_other_characters_do_not_count(s);
    lemma_value_is_fold(digit, plus, g, f, digits_of(s), r1);
    lemma_value_is_fold(digit, plus, g, f, digits_of(significant_chars(s)), r2);
}

/// `f` is commutative and associative.
pub open spec fn commutative_associative<N>(f: spec_fn(N, N) -> N) -> bool {
    &&& forall|a: N, b: N| #[trigger] f(a, b) == f(b, a)
    &&& forall|a: N, b: N, c: N| #[trigger] f(f(a, b), c) == f(a, f(b, c))
}

proof fn lemma_fold_remove<N>(f: spec_fn(N, N) -> N, g: spec_fn(u32) -> N, ds: Seq<u32>, j: int)
    requires
        commutative_associative(f),
        ds.len() >= 2,
        0 <= j < ds.len(),
    ensures
        fold_digits(f, g, ds) == f(fold_digits(f, g, ds.remove(j)), g(ds[j])),
    decreases j,
{
    if j > 0 {
        let t = ds.drop_first();
        let rest = ds.remove(j);
        if ds.len() == 2 {
            assert(t =~= seq![ds[1]]);
            assert(rest =~= seq![ds[0]]);
            assert(fold_digits(f, g, t) == g(ds[1]));
            assert(fold_digits(f, g, rest) == g(ds[0]));
            assert(fold_digits(f, g, ds) == f(g(ds[1]), g(ds[0])));
            assert(f(g(ds[1]), g(ds[0])) == f(g(ds[0]), g(ds[1])));
        } else {
            lemma_fold_remove(f, g, t, j - 1);
            let r = t.remove(j - 1);
            assert(rest.drop_first() =~= r);
            assert(rest[0] == ds[0]);
            assert(t[j - 1] == ds[j]);
            let fr = fold_digits(f, g, r);
            assert(fold_digits(f, g, ds) == f(fold_digits(f, g, t), g(ds[0])));
            assert(fold_digits(f, g, t) == f(fr, g(ds[j])));
            assert(rest.len() >= 2);
            assert(fold_digits(f, g, rest) == f(fr, g(ds[0])));
            assert(f(f(fr, g(ds[j])), g(ds[0])) == f(fr, f(g(ds[j]), g(ds[0]))));
            assert(f(g(ds[j]), g(ds[0])) == f(g(ds[0]), g(ds[j])));
            assert(f(f(fr, g(ds[0])), g(ds[j])) == f(fr, f(g(ds[0]), g(ds[j]))));
        }
    } else {
        assert(ds.remove(0) =~= ds.drop_first());
    }
}

proof fn lemma_fold_reorder<N>(f: spec_fn(N, N) -> N, g: spec_fn(u32) -> N, a: Seq<u32>, b: Seq<u32>)
    requires
        commutative_associative(f),
        a.to_multiset() == b.to_multiset(),
    ensures
        fold_digits(f, g, a) == fold_digits(f, g, b),
    decreases a.len(),
{
    broadcast use vstd::seq_lib::group_to_multiset_ensures;
    broadcast use vstd::multiset::group_multiset_axioms;

    assert(a.len() == a.to_multiset().len());
    assert(b.len() == b.to_multiset().len());
    if a.len() == 0 {
        assert(a =~= b);
    } else {
        let x = a[0];
        assert(a.contains(x));
        assert(b.to_multiset().count(x) > 0);
        assert(b.contains(x));
        let j = choose|j: int| 0 <= j < b.len() && b[j] == x;
        assert(a.remove(0) =~= a.drop_first());
        assert(a.drop_first().to_multiset() == a.to_multiset().remove(x));
        assert(b.remove(j).to_multiset() == b.to_multiset().remove(x));
        if a.len() == 1 {
            assert(a =~= seq![x]);
            assert(b =~= seq![x]);
        } else {
            lemma_fold_reorder(f, g, a.drop_first(), b.remove(j));
            lemma_fold_remove(f, g, b, j);
        }
    }
}

/// When `digit` and `plus` compute functions and the addition is commutative
/// and associative, reordering the characters of an expression keeps its
/// result: both are accepted or both rejected, and accepted ones have the same
/// value.
pub proof fn lemma_reordering_same_result<N, D: Fn(u32) -> N, F: Fn(N, N) -> N>(
    digit: D,
    plus: F,
    g: spec_fn(u32) -> N,
    f: spec_fn(N, N) -> N,
    s: Seq<char>,
    t: Seq<char>,
    r1: N,
    r2: N,
)
    requires
        computes(digit, plus, g, f),
        commutative_associative(f),
        s.to_multiset() == t.to_multiset(),
        evaluates_to(digit, plus, digits_of(s), r1),
        evaluates_to(digit, plus, digits_of(t), r2),
    ensures
        (digits_of(s).len() == plus_count(s) + 1) == (digits_of(t).len() == plus_count(t) + 1),
        r1 == r2,
{
    lemma_reordering_keeps_digits(s, t);
    lemma_value_is_fold(digit, plus, g, f, digits_of(s), r1);
    lemma_value_is_fold(digit, plus, g, f, digits_of(t), r2);
    lemma_fold_reorder(f, g, digits_of(s), digits_of(t));
}

} // verus!

verus! {

/// The decimal digits are exactly the characters `'0'` to `'9'` (code points
/// 48 to 57), and each has its distance from `'0'` as its value.
pub proof fn lemma_digit_values(c: char)
    ensures
        spec_digit_value(c) is Some <==> 48 <= c as u32 <= 57,
        spec_digit_value(c) matches Some(d) ==> d + 48 == c as u32,
{
}

/// An expression made of one digit character `c` holds exactly the digit
/// `c - '0'` and no `+`: it is accepted, and its values are those of `digit`
/// on `c - '0'`.
pub proof fn lemma_single_digit_expression<N, D: Fn(u32) -> N, F: Fn(N, N) -> N>(
    digit: D,
    plus: F,
    c: char,
    r: N,
)
    requires
        48 <= c as u32 <= 57,
    ensures
        digits_of(seq![c]) == seq![(c as u32 - 48) as u32],
        plus_count(seq![c]) == 0,
        evaluates_to(digit, plus, digits_of(seq![c]), r) <==> digit.ensures(
            ((c as u32 - 48) as u32,),
            r,
        ),
{
    let s = seq![c];
    let d = (c as u32 - 48) as u32;
    assert(s.drop_last() =~= Seq::<char>::empty());
    assert(s.last() == c);
    assert(spec_digit_value(c) == Some(d));
    assert(digits_of(s.drop_last()) == Seq::<u32>::empty());
    assert(plus_count(s.drop_last()) == 0);
    assert(c != '+');
    assert(digits_of(s) =~= seq![d]);
    let ds = seq![d];
    if digit.ensures((d,), r) {
        let vals = seq![r];
        assert(digit_results(digit, ds, vals));
        assert(adds_up_to(plus, vals, r));
    }
    if evaluates_to(digit, plus, ds, r) {
        let vals = choose|vals: Seq<N>| digit_results(digit, ds, vals) && #[trigger] adds_up_to(plus, vals, r);
        assert(digit.ensures((ds[0],), vals[0]));
    }
}

} // verus!

verus! {

/// `x + y` for two digit characters: it is accepted, and its values are those
/// of `plus` applied to the number of the second digit and then the number of
/// the first (the top of the stack comes first).
pub proof fn lemma_two_digit_sum<N, D: Fn(u32) -> N, F: Fn(N, N) -> N>(
    digit: D,
    plus: F,
    x: char,
    y: char,
    r: N,
)
    requires
        48 <= x as u32 <= 57,
        48 <= y as u32 <= 57,
    ensures
        digits_of(seq![x, '+', y]) == seq![(x as u32 - 48) as u32, (y as u32 - 48) as u32],
        plus_count(seq![x, '+', y]) == 1,
        evaluates_to(digit, plus, digits_of(seq![x, '+', y]), r) <==> exists|a: N, b: N|
            #[trigger] digit.ensures(((x as u32 - 48) as u32,), a) && #[trigger] digit.ensures(
                ((y as u32 - 48) as u32,),
                b,
            ) && #[trigger] plus.ensures((b, a), r),
{
    let s = seq![x, '+', y];
    let dx = (x as u32 - 48) as u32;
    let dy = (y as u32 - 48) as u32;
    assert(s.drop_last() =~= seq![x, '+']);
    assert(s.drop_last().drop_last() =~= seq![x]);
    assert(s.drop_last().drop_last().drop_last() =~= Seq::<char>::empty());
    assert(spec_digit_value(x) == Some(dx));
    assert(spec_digit_value(y) == Some(dy));
    assert(spec_digit_value('+') is None);
    lemma_single_digit_expression(digit, plus, x, r);
    assert(s.drop_last().drop_last() == seq![x]);
    assert(s.drop_last().last() == '+');
    assert(s.last() == y);
    assert(y != '+');
    assert(digits_of(s.drop_last()) == digits_of(seq![x]));
    assert(plus_count(s.drop_last()) == 1);
    assert(digits_of(s) =~= seq![dx, dy]);
    let ds = seq![dx, dy];
    if evaluates_to(digit, plus, ds, r) {
        let vals = choose|vals: Seq<N>| digit_results(digit, ds, vals) && #[trigger] adds_up_to(plus, vals, r);
        assert(digit.ensures((ds[0],), vals[0]));
        assert(digit.ensures((ds[1],), vals[1]));
        let m = choose|m: N| adds_up_to(plus, vals.drop_first(), m) && #[trigger] plus.ensures(
            (m, vals[0]),
            r,
        );
        assert(vals.drop_first()[0] == vals[1]);
        assert(digit.ensures((dx,), vals[0]) && digit.ensures((dy,), vals[1]) && plus.ensures((vals[1], vals[0]), r));
    }
    if exists|a: N, b: N|
        #[trigger] digit.ensures((dx,), a) && #[trigger] digit.ensures((dy,), b)
            && #[trigger] plus.ensures((b, a), r) {
        let (a, b) = choose|a: N, b: N|
            #[trigger] digit.ensures((dx,), a) && #[trigger] digit.ensures((dy,), b)
                && #[trigger] plus.ensures((b, a), r);
        let vals = seq![a, b];
        assert(vals.drop_first() =~= seq![b]);
        assert(adds_up_to(plus, vals.drop_first(), b));
        assert(adds_up_to(plus, vals, r));
        assert(digit_results(digit, ds, vals));
    }
}

} // verus!
