use vstd::prelude::*;
use crate::ast::{BinaryOp, ExprV, StmtV, UnaryOp, binary_op_of, rank};
use crate::lexer::Lexeme;
use crate::parse::{MAX_DEPTH, at, binary, block_items, block_statement, let_statement, in_range, binary_rest, expression_statement, parse_outcome, primary, program_from, statement, unary};

verus! {

/// The expression a single number or identifier token parses to.
pub open spec fn atom_value(l: Lexeme) -> Option<ExprV> {
    match l {
        Lexeme::Number(v) => Some(ExprV::Number(v)),
        Lexeme::Ident(s) => Some(ExprV::Identifier(s)),
        _ => None,
    }
}

pub open spec fn join(l: ExprV, op: BinaryOp, r: ExprV) -> ExprV {
    ExprV::Binary(Box::new(l), op, Box::new(r))
}

/// The expression statement `a o1 b o2 c;` as tokens.
pub open spec fn chain(a: Lexeme, o1: Lexeme, b: Lexeme, o2: Lexeme, c: Lexeme) -> Seq<Lexeme> {
    seq![a, o1, b, o2, c, Lexeme::Semicolon]
}

proof fn lemma_atom_operand(t: Seq<Lexeme>, i: int)
    requires
        0 <= i < t.len(),
        atom_value(t[i]) is Some,
    ensures
        unary(t, i, 0) == (Ok::<ExprV, crate::error::Fault>(atom_value(t[i])->0), i + 1),
{
    assert(primary(t, i, 0) == (Ok::<ExprV, crate::error::Fault>(atom_value(t[i])->0), i + 1));
}

proof fn lemma_atom(t: Seq<Lexeme>, i: int, m: int)
    requires
        0 <= i,
        i + 1 < t.len(),
        atom_value(t[i]) is Some,
        binary_op_of(t[i + 1]) is None || rank(binary_op_of(t[i + 1])->0) < m,
    ensures
        unary(t, i, 0) == (Ok::<ExprV, crate::error::Fault>(atom_value(t[i])->0), i + 1),
        binary(t, i, m, 0) == (Ok::<ExprV, crate::error::Fault>(atom_value(t[i])->0), i + 1),
{
    assert(primary(t, i, 0) == (Ok::<ExprV, crate::error::Fault>(atom_value(t[i])->0), i + 1));
    assert(unary(t, i, 0) == primary(t, i, 0));
    assert(binary_rest(t, atom_value(t[i])->0, i + 1, m, 0) == (
        Ok::<ExprV, crate::error::Fault>(atom_value(t[i])->0),
        i + 1,
    ));
}

/// Tokens whose expression ends just before a final `;` parse to that one statement.
proof fn lemma_expression_statement(t: Seq<Lexeme>, e: ExprV, p: int)
    requires
        0 < p,
        t.len() == p + 1,
        t[p] == Lexeme::Semicolon,
        !(t[0] is Let || t[0] is LeftBrace || t[0] is EOF),
        binary(t, 0, 0, 0) == (Ok::<ExprV, crate::error::Fault>(e), p),
    ensures
        parse_outcome(t) == Ok::<Seq<StmtV>, Seq<crate::error::Fault>>(seq![StmtV::Expression(e)]),
{
    assert(expression_statement(t, 0, 0) == (
        Ok::<StmtV, crate::error::Fault>(StmtV::Expression(e)),
        p + 1,
    ));
    assert(statement(t, 0, 0) == expression_statement(t, 0, 0));
    assert(program_from(t, p + 1) == (Seq::<StmtV>::empty(), Seq::<crate::error::Fault>::empty()));
    assert(program_from(t, 0).0 =~= seq![StmtV::Expression(e)]);
    assert(program_from(t, 0).1 =~= Seq::<crate::error::Fault>::empty());
}

/// Operators of the same rank associate to the left: for any numbers or identifiers
/// `a`, `b`, `c`, the statement `a o1 b o2 c;` parses as `(a o1 b) o2 c`.
pub proof fn law_same_rank_folds_left(a: Lexeme, o1: Lexeme, b: Lexeme, o2: Lexeme, c: Lexeme)
    requires
        atom_value(a) is Some,
        atom_value(b) is Some,
        atom_value(c) is Some,
        binary_op_of(o1) is Some,
        binary_op_of(o2) is Some,
        rank(binary_op_of(o1)->0) == rank(binary_op_of(o2)->0),
    ensures
        parse_outcome(chain(a, o1, b, o2, c)) == Ok::<Seq<StmtV>, Seq<crate::error::Fault>>(
            seq![
                StmtV::Expression(
                    join(
                        join(atom_value(a)->0, binary_op_of(o1)->0, atom_value(b)->0),
                        binary_op_of(o2)->0,
                        atom_value(c)->0,
                    ),
                ),
            ],
        ),
{
    let t = chain(a, o1, b, o2, c);
    let (op1, op2) = (binary_op_of(o1)->0, binary_op_of(o2)->0);
    let (av, bv, cv) = (atom_value(a)->0, atom_value(b)->0, atom_value(c)->0);
    let r = rank(op1) as int;
    lemma_atom_operand(t, 0);
    lemma_atom(t, 2, r + 1);
    lemma_atom(t, 4, r + 1);
    let e1 = join(av, op1, bv);
    let e2 = join(e1, op2, cv);
    assert(binary_rest(t, e2, 5, 0, 0) == (Ok::<ExprV, crate::error::Fault>(e2), 5int));
    assert(binary_rest(t, e1, 3, 0, 0) == (Ok::<ExprV, crate::error::Fault>(e2), 5int));
    assert(binary_rest(t, av, 1, 0, 0) == (Ok::<ExprV, crate::error::Fault>(e2), 5int));
    assert(binary(t, 0, 0, 0) == (Ok::<ExprV, crate::error::Fault>(e2), 5int));
    lemma_expression_statement(t, e2, 5);
}

/// A tighter operator on the right binds first: for any numbers or identifiers
/// `a`, `b`, `c`, with `o2` of higher rank than `o1`, the statement `a o1 b o2 c;`
/// parses as `a o1 (b o2 c)`.
pub proof fn law_tighter_right_binds_first(
    a: Lexeme,
    o1: Lexeme,
    b: Lexeme,
    o2: Lexeme,
    c: Lexeme,
)
    requires
        atom_value(a) is Some,
        atom_value(b) is Some,
        atom_value(c) is Some,
        binary_op_of(o1) is Some,
        binary_op_of(o2) is Some,
        rank(binary_op_of(o1)->0) < rank(binary_op_of(o2)->0),
    ensures
        parse_outcome(chain(a, o1, b, o2, c)) == Ok::<Seq<StmtV>, Seq<crate::error::Fault>>(
            seq![
                StmtV::Expression(
                    join(
                        atom_value(a)->0,
                        binary_op_of(o1)->0,
                        join(atom_value(b)->0, binary_op_of(o2)->0, atom_value(c)->0),
                    ),
                ),
            ],
        ),
{
    let t = chain(a, o1, b, o2, c);
    let (op1, op2) = (binary_op_of(o1)->0, binary_op_of(o2)->0);
    let (av, bv, cv) = (atom_value(a)->0, atom_value(b)->0, atom_value(c)->0);
    let r1 = rank(op1) as int;
    let r2 = rank(op2) as int;
    lemma_atom_operand(t, 0);
    lemma_atom_operand(t, 2);
    lemma_atom(t, 4, r2 + 1);
    let inner = join(bv, op2, cv);
    let e = join(av, op1, inner);
    assert(binary_rest(t, inner, 5, r1 + 1, 0) == (Ok::<ExprV, crate::error::Fault>(inner), 5int));
    assert(binary_rest(t, bv, 3, r1 + 1, 0) == (Ok::<ExprV, crate::error::Fault>(inner), 5int));
    assert(binary(t, 2, r1 + 1, 0) == (Ok::<ExprV, crate::error::Fault>(inner), 5int));
    assert(binary_rest(t, e, 5, 0, 0) == (Ok::<ExprV, crate::error::Fault>(e), 5int));
    assert(binary_rest(t, av, 1, 0, 0) == (Ok::<ExprV, crate::error::Fault>(e), 5int));
    assert(binary(t, 0, 0, 0) == (Ok::<ExprV, crate::error::Fault>(e), 5int));
    lemma_expression_statement(t, e, 5);
}

/// `e` under `n` negations.
pub open spec fn negated(n: nat, e: ExprV) -> ExprV
    decreases n,
{
    if n == 0 {
        e
    } else {
        ExprV::Unary(UnaryOp::Negate, Box::new(negated((n - 1) as nat, e)))
    }
}

/// The expression statement of `n` minus signs before `a`, as tokens.
pub open spec fn negations(n: nat, a: Lexeme) -> Seq<Lexeme> {
    Seq::new(n, |i: int| Lexeme::Minus) + seq![a, Lexeme::Semicolon]
}

proof fn lemma_negations(n: nat, a: Lexeme, k: nat)
    requires
        atom_value(a) is Some,
        n < MAX_DEPTH,
        k <= n,
    ensures
        unary(negations(n, a), n - k, n - k) == (
            Ok::<ExprV, crate::error::Fault>(negated(k, atom_value(a)->0)),
            n as int + 1,
        ),
    decreases k,
{
    let t = negations(n, a);
    if k == 0 {
        assert(t[n as int] == a);
        assert(primary(t, n as int, n as int) == (
            Ok::<ExprV, crate::error::Fault>(atom_value(a)->0),
            n as int + 1,
        ));
    } else {
        lemma_negations(n, a, (k - 1) as nat);
        assert(t[n - k] == Lexeme::Minus);
    }
}

/// Unary minus nests: for any number or identifier `a` and any count `n` of minus
/// signs within the nesting bound, `-…-a;` parses as `a` under `n` negations.
pub proof fn law_negations_nest(n: nat, a: Lexeme)
    requires
        atom_value(a) is Some,
        n < MAX_DEPTH,
    ensures
        parse_outcome(negations(n, a)) == Ok::<Seq<StmtV>, Seq<crate::error::Fault>>(
            seq![StmtV::Expression(negated(n, atom_value(a)->0))],
        ),
{
    let t = negations(n, a);
    let e = negated(n, atom_value(a)->0);
    let p = n as int + 1;
    lemma_negations(n, a, n);
    assert(t[p] == Lexeme::Semicolon);
    assert(binary_rest(t, e, p, 0, 0) == (Ok::<ExprV, crate::error::Fault>(e), p));
    assert(binary(t, 0, 0, 0) == (Ok::<ExprV, crate::error::Fault>(e), p));
    if n == 0 {
        assert(t[0] == a);
    } else {
        assert(t[0] == Lexeme::Minus);
    }
    lemma_expression_statement(t, e, p);
}

/// The token of a binary operator.
pub open spec fn op_lexeme(op: BinaryOp) -> Lexeme {
    match op {
        BinaryOp::Add => Lexeme::Plus,
        BinaryOp::Subtract => Lexeme::Minus,
        BinaryOp::Multiply => Lexeme::Multiply,
        BinaryOp::Divide => Lexeme::Divide,
    }
}

/// An expression written back as tokens, operands in order and groupings in parentheses.
pub open spec fn render(e: ExprV) -> Seq<Lexeme>
    decreases e,
{
    match e {
        ExprV::Number(v) => seq![Lexeme::Number(v)],
        ExprV::Identifier(s) => seq![Lexeme::Ident(s)],
        ExprV::Binary(l, op, r) => render(*l) + seq![op_lexeme(op)] + render(*r),
        ExprV::Unary(_, x) => seq![Lexeme::Minus] + render(*x),
        ExprV::Grouping(x) => seq![Lexeme::LeftParen] + render(*x) + seq![Lexeme::RightParen],
    }
}

/// The shape precedence climbing builds at minimum rank `m`: every operator on the left
/// spine has rank at least `m`, a left operand holds no looser operator at its top, a right
/// operand only tighter ones, and the operand of a negation is no binary expression.
pub open spec fn canonical(e: ExprV, m: int) -> bool
    decreases e,
{
    match e {
        ExprV::Binary(l, op, r) => rank(op) >= m && canonical(*l, rank(op) as int) && canonical(
            *r,
            rank(op) + 1,
        ),
        ExprV::Unary(_, x) => canonical(*x, 3),
        ExprV::Grouping(x) => canonical(*x, 0),
        _ => true,
    }
}

/// How many negations and groupings nest along the deepest path.
pub open spec fn nesting(e: ExprV) -> nat
    decreases e,
{
    match e {
        ExprV::Binary(l, _, r) => if nesting(*l) >= nesting(*r) {
            nesting(*l)
        } else {
            nesting(*r)
        },
        ExprV::Unary(_, x) => 1 + nesting(*x),
        ExprV::Grouping(x) => 1 + nesting(*x),
        _ => 0,
    }
}

pub open spec fn top_rank(e: ExprV) -> int {
    match e {
        ExprV::Binary(_, op, _) => rank(op) as int,
        _ => 3,
    }
}

/// The leftmost operand that is no binary expression.
pub open spec fn leaf(e: ExprV) -> ExprV
    decreases e,
{
    match e {
        ExprV::Binary(l, _, _) => leaf(*l),
        _ => e,
    }
}

pub open spec fn stops(t: Seq<Lexeme>, p: int, m: int) -> bool {
    binary_op_of(at(t, p)) is None || (rank(binary_op_of(at(t, p))->0) as int) < m
}

/// The tokens of `e` stand in `t` from index `i` on.
pub open spec fn placed(t: Seq<Lexeme>, i: int, e: ExprV) -> bool {
    0 <= i && i + render(e).len() <= t.len() && t.subrange(i, i + render(e).len()) == render(e)
}

proof fn lemma_render_starts(e: ExprV)
    ensures
        render(e).len() >= 1,
        render(e)[0] is Number || render(e)[0] is Ident || render(e)[0] is Minus
            || render(e)[0] is LeftParen,
    decreases e,
{
    match e {
        ExprV::Binary(l, op, r) => {
            lemma_render_starts(*l);
            lemma_render_starts(*r);
        },
        ExprV::Unary(_, x) => {
            lemma_render_starts(*x);
        },
        ExprV::Grouping(x) => {
            lemma_render_starts(*x);
        },
        _ => {},
    }
}

proof fn lemma_placed_parts(t: Seq<Lexeme>, i: int, e: ExprV)
    requires
        placed(t, i, e),
    ensures
        e is Binary ==> ({
            let (l, op, r) = (*e->Binary_0, e->Binary_1, *e->Binary_2);
            &&& placed(t, i, l)
            &&& t[i + render(l).len()] == op_lexeme(op)
            &&& placed(t, i + render(l).len() + 1, r)
        }),
        e is Unary ==> t[i] == Lexeme::Minus && placed(t, i + 1, *e->Unary_1),
        e is Grouping ==> ({
            let x = *e->Grouping_0;
            &&& t[i] == Lexeme::LeftParen
            &&& placed(t, i + 1, x)
            &&& t[i + 1 + render(x).len()] == Lexeme::RightParen
        }),
        !(e is Binary || e is Unary || e is Grouping) ==> t[i] == render(e)[0],
{
    let w = render(e);
    assert forall|k: int| 0 <= k < w.len() implies t[i + k] == w[k] by {
        assert(t.subrange(i, i + w.len())[k] == t[i + k]);
    }
    match e {
        ExprV::Binary(l, op, r) => {
            let (a, b) = (render(*l), render(*r));
            assert(w == a + seq![op_lexeme(op)] + b);
            assert(t.subrange(i, i + a.len()) =~= a) by {
                assert forall|k: int| 0 <= k < a.len() implies t.subrange(i, i + a.len())[k]
                    == a[k] by {
                    assert(w[k] == a[k]);
                }
            }
            assert(w[a.len() as int] == op_lexeme(op));
            let j = i + a.len() + 1;
            assert(t.subrange(j, j + b.len()) =~= b) by {
                assert forall|k: int| 0 <= k < b.len() implies t.subrange(j, j + b.len())[k]
                    == b[k] by {
                    assert(w[a.len() + 1 + k] == b[k]);
                }
            }
        },
        ExprV::Unary(_, x) => {
            let a = render(*x);
            assert(w[0] == Lexeme::Minus);
            assert(t.subrange(i + 1, i + 1 + a.len()) =~= a) by {
                assert forall|k: int| 0 <= k < a.len() implies t.subrange(i + 1, i + 1 + a.len())[k]
                    == a[k] by {
                    assert(w[1 + k] == a[k]);
                }
            }
        },
        ExprV::Grouping(x) => {
            let a = render(*x);
            assert(w[0] == Lexeme::LeftParen);
            assert(w[1 + a.len() as int] == Lexeme::RightParen);
            assert(t.subrange(i + 1, i + 1 + a.len()) =~= a) by {
                assert forall|k: int| 0 <= k < a.len() implies t.subrange(i + 1, i + 1 + a.len())[k]
                    == a[k] by {
                    assert(w[1 + k] == a[k]);
                }
            }
        },
        _ => {},
    }
}

proof fn lemma_canonical_weaker(e: ExprV, a: int, b: int)
    requires
        canonical(e, a),
        b <= a,
    ensures
        canonical(e, b),
{
}

proof fn lemma_op_lexeme(op: BinaryOp)
    ensures
        binary_op_of(op_lexeme(op)) == Some(op),
{
}

/// A negation, grouping, number or identifier parses back at the unary level.
proof fn lemma_unary_back(t: Seq<Lexeme>, i: int, d: int, e: ExprV)
    requires
        canonical(e, 3),
        placed(t, i, e),
        0 <= d,
        d + nesting(e) < MAX_DEPTH,
    ensures
        unary(t, i, d) == (Ok::<ExprV, crate::error::Fault>(e), i + render(e).len()),
    decreases e, 0int,
{
    lemma_placed_parts(t, i, e);
    match e {
        ExprV::Unary(op, x) => {
            lemma_unary_back(t, i + 1, d + 1, *x);
            assert(e == ExprV::Unary(UnaryOp::Negate, x));
        },
        ExprV::Grouping(x) => {
            let n = render(*x).len();
            lemma_binary_back(t, i + 1, 0, d + 1, *x);
            assert(primary(t, i, d) == (Ok::<ExprV, crate::error::Fault>(e), i + n + 2));
        },
        ExprV::Number(v) => {
            assert(primary(t, i, d) == (Ok::<ExprV, crate::error::Fault>(e), i + 1));
        },
        ExprV::Identifier(s) => {
            assert(primary(t, i, d) == (Ok::<ExprV, crate::error::Fault>(e), i + 1));
        },
        ExprV::Binary(..) => {},
    }
}

/// The leftmost operand parses first.
proof fn lemma_leaf_back(t: Seq<Lexeme>, i: int, d: int, e: ExprV, m: int)
    requires
        canonical(e, m),
        placed(t, i, e),
        0 <= d,
        d + nesting(e) < MAX_DEPTH,
    ensures
        placed(t, i, leaf(e)),
        nesting(leaf(e)) <= nesting(e),
        unary(t, i, d) == (Ok::<ExprV, crate::error::Fault>(leaf(e)), i + render(leaf(e)).len()),
    decreases e, 1int,
{
    lemma_placed_parts(t, i, e);
    match e {
        ExprV::Binary(l, op, r) => {
            lemma_leaf_back(t, i, d, *l, rank(op) as int);
        },
        _ => {
            lemma_unary_back(t, i, d, e);
        },
    }
}

/// Folding the left spine of `e` from its leftmost operand reaches `e` itself.
proof fn lemma_spine_back(t: Seq<Lexeme>, i: int, m: int, d: int, e: ExprV)
    requires
        canonical(e, m),
        placed(t, i, e),
        0 <= d,
        d + nesting(e) < MAX_DEPTH,
        stops(t, i + render(e).len(), top_rank(e) + 1),
    ensures
        binary_rest(t, leaf(e), i + render(leaf(e)).len(), m, d) == binary_rest(
            t,
            e,
            i + render(e).len(),
            m,
            d,
        ),
    decreases e, 1int,
{
    lemma_placed_parts(t, i, e);
    match e {
        ExprV::Binary(l, op, r) => {
            let k = i + render(*l).len();
            let end = i + render(e).len();
            lemma_canonical_weaker(*l, rank(op) as int, m);
            lemma_op_lexeme(op);
            assert(canonical(*l, rank(op) as int));
            assert(top_rank(*l) >= rank(op));
            assert(at(t, k) == op_lexeme(op));
            lemma_spine_back(t, i, m, d, *l);
            lemma_binary_back(t, k + 1, rank(op) + 1, d, *r);
            assert(k < end);
            assert(binary_rest(t, *l, k, m, d) == binary_rest(t, e, end, m, d));
        },
        _ => {},
    }
}

/// An expression of the shape built at rank `m`, followed by a token that ends it,
/// parses back to itself.
proof fn lemma_binary_back(t: Seq<Lexeme>, i: int, m: int, d: int, e: ExprV)
    requires
        canonical(e, m),
        placed(t, i, e),
        0 <= d,
        d + nesting(e) < MAX_DEPTH,
        stops(t, i + render(e).len(), m),
    ensures
        binary(t, i, m, d) == (Ok::<ExprV, crate::error::Fault>(e), i + render(e).len()),
    decreases e, 2int,
{
    lemma_leaf_back(t, i, d, e, m);
    lemma_spine_back(t, i, m, d, e);
    let end = i + render(e).len();
    assert(binary_rest(t, e, end, m, d) == (Ok::<ExprV, crate::error::Fault>(e), end));
}

/// Writing an expression of the shape the parser builds back as tokens, and parsing
/// those as a statement, gives the same expression again.
pub proof fn law_expression_round_trip(e: ExprV)
    requires
        canonical(e, 0),
        nesting(e) < MAX_DEPTH,
    ensures
        parse_outcome(render(e) + seq![Lexeme::Semicolon]) == Ok::<
            Seq<StmtV>,
            Seq<crate::error::Fault>,
        >(seq![StmtV::Expression(e)]),
{
    let t = render(e) + seq![Lexeme::Semicolon];
    let n = render(e).len() as int;
    lemma_render_starts(e);
    assert(t.subrange(0, n) =~= render(e));
    assert(t[n] == Lexeme::Semicolon);
    lemma_binary_back(t, 0, 0, 0, e);
    assert(t[0] == render(e)[0]);
    lemma_expression_statement(t, e, n);
}

proof fn lemma_operand_any_rank(e: ExprV, m: int)
    requires
        canonical(e, 3),
    ensures
        canonical(e, m),
{
}

proof fn lemma_canonical_at(e: ExprV, m: int, r: int)
    requires
        canonical(e, m),
        top_rank(e) >= r,
    ensures
        canonical(e, r),
{
}

/// What the unary level parses has the unary shape, fits the nesting bound and
/// consumes at least one token.
proof fn lemma_unary_shape(t: Seq<Lexeme>, i: int, d: int)
    requires
        in_range(t, i, d),
        unary(t, i, d).0 is Ok,
    ensures
        canonical(unary(t, i, d).0->Ok_0, 3),
        d + nesting(unary(t, i, d).0->Ok_0) < MAX_DEPTH,
        i < unary(t, i, d).1 <= t.len(),
    decreases MAX_DEPTH - d, t.len() - i, 1int,
{
    if d < MAX_DEPTH {
        match crate::ast::unary_op_of(at(t, i)) {
            Some(op) => {
                lemma_unary_shape(t, i + 1, d + 1);
                let x = unary(t, i + 1, d + 1).0->Ok_0;
                assert(unary(t, i, d).0->Ok_0 == ExprV::Unary(op, Box::new(x)));
            },
            None => {
                assert(unary(t, i, d) == primary(t, i, d));
                if at(t, i) is LeftParen {
                    assert(binary(t, i + 1, 0, d + 1).0 is Ok);
                    lemma_binary_shape(t, i + 1, 0, d + 1);
                    let x = binary(t, i + 1, 0, d + 1).0->Ok_0;
                    assert(unary(t, i, d).0->Ok_0 == ExprV::Grouping(Box::new(x)));
                }
            },
        }
    }
}

/// What `binary` parses at rank `m` has the shape built at rank `m`, fits the nesting
/// bound, consumes at least one token, and stops before any operator of rank `m` or more.
proof fn lemma_binary_shape(t: Seq<Lexeme>, i: int, m: int, d: int)
    requires
        in_range(t, i, d),
        binary(t, i, m, d).0 is Ok,
    ensures
        canonical(binary(t, i, m, d).0->Ok_0, m),
        d + nesting(binary(t, i, m, d).0->Ok_0) < MAX_DEPTH,
        i < binary(t, i, m, d).1 <= t.len(),
        stops(t, binary(t, i, m, d).1, m),
    decreases MAX_DEPTH - d, t.len() - i, 3int,
{
    lemma_unary_shape(t, i, d);
    let (u, p) = (unary(t, i, d).0->Ok_0, unary(t, i, d).1);
    lemma_rest_shape(t, u, p, m, d);
}

proof fn lemma_rest_shape(t: Seq<Lexeme>, l: ExprV, k: int, m: int, d: int)
    requires
        in_range(t, k, d),
        binary_rest(t, l, k, m, d).0 is Ok,
        canonical(l, 3) || (canonical(l, m) && stops(t, k, top_rank(l) + 1)),
        d + nesting(l) < MAX_DEPTH,
    ensures
        canonical(binary_rest(t, l, k, m, d).0->Ok_0, m),
        d + nesting(binary_rest(t, l, k, m, d).0->Ok_0) < MAX_DEPTH,
        k <= binary_rest(t, l, k, m, d).1 <= t.len(),
        stops(t, binary_rest(t, l, k, m, d).1, m),
    decreases MAX_DEPTH - d, t.len() - k, 2int,
{
    match binary_op_of(at(t, k)) {
        None => {
            if canonical(l, 3) {
                lemma_operand_any_rank(l, m);
            }
        },
        Some(op) => {
            if (rank(op) as int) < m {
                if canonical(l, 3) {
                    lemma_operand_any_rank(l, m);
                }
            } else {
                let r = rank(op) as int;
                lemma_binary_shape(t, k + 1, r + 1, d);
                let (right, p) = (binary(t, k + 1, r + 1, d).0->Ok_0, binary(t, k + 1, r + 1, d).1);
                if canonical(l, 3) {
                    lemma_operand_any_rank(l, r);
                    lemma_operand_any_rank(l, m);
                } else {
                    lemma_canonical_at(l, m, r);
                }
                let e = join(l, op, right);
                assert(canonical(e, m));
                lemma_rest_shape(t, e, p, m, d);
            }
        },
    }
}

/// Every expression the parser builds, written back as tokens and parsed as a
/// statement, gives the same expression again.
pub proof fn law_parsed_expression_round_trip(t: Seq<Lexeme>, i: int)
    requires
        0 <= i <= t.len(),
        binary(t, i, 0, 0).0 is Ok,
    ensures
        parse_outcome(render(binary(t, i, 0, 0).0->Ok_0) + seq![Lexeme::Semicolon]) == Ok::<
            Seq<StmtV>,
            Seq<crate::error::Fault>,
        >(seq![StmtV::Expression(binary(t, i, 0, 0).0->Ok_0)]),
{
    lemma_binary_shape(t, i, 0, 0);
    law_expression_round_trip(binary(t, i, 0, 0).0->Ok_0);
}

/// A statement written back as tokens.
pub open spec fn render_stmt(s: StmtV) -> Seq<Lexeme>
    decreases s,
{
    match s {
        StmtV::Let(name, value) => seq![Lexeme::Let, Lexeme::Ident(name), Lexeme::Equals] + render(
            value,
        ) + seq![Lexeme::Semicolon],
        StmtV::Expression(e) => render(e) + seq![Lexeme::Semicolon],
        StmtV::Block(ss) => seq![Lexeme::LeftBrace] + render_stmts(ss) + seq![Lexeme::RightBrace],
    }
}

/// Statements written back as tokens, one after another.
pub open spec fn render_stmts(ss: Seq<StmtV>) -> Seq<Lexeme>
    decreases ss,
{
    if ss.len() == 0 {
        Seq::empty()
    } else {
        render_stmt(ss[0]) + render_stmts(ss.subrange(1, ss.len() as int))
    }
}

/// A statement of the shape the parser builds at block depth `d`.
pub open spec fn good_stmt(s: StmtV, d: int) -> bool
    decreases s,
{
    match s {
        StmtV::Let(_, value) => canonical(value, 0) && d + nesting(value) < MAX_DEPTH,
        StmtV::Expression(e) => canonical(e, 0) && d + nesting(e) < MAX_DEPTH,
        StmtV::Block(ss) => d < MAX_DEPTH && good_stmts(ss, d + 1),
    }
}

pub open spec fn good_stmts(ss: Seq<StmtV>, d: int) -> bool
    decreases ss,
{
    ss.len() == 0 || (good_stmt(ss[0], d) && good_stmts(ss.subrange(1, ss.len() as int), d))
}

/// `a + b` stands in `t` at `i`: so do `a` at `i` and `b` right after it.
proof fn lemma_split(t: Seq<Lexeme>, i: int, a: Seq<Lexeme>, b: Seq<Lexeme>)
    requires
        0 <= i,
        i + a.len() + b.len() <= t.len(),
        t.subrange(i, i + a.len() + b.len()) == a + b,
    ensures
        t.subrange(i, i + a.len()) == a,
        t.subrange(i + a.len(), i + a.len() + b.len()) == b,
{
    let w = a + b;
    assert(t.subrange(i, i + a.len()) =~= a) by {
        assert forall|k: int| 0 <= k < a.len() implies t.subrange(i, i + a.len())[k] == a[k] by {
            assert(t.subrange(i, i + w.len())[k] == w[k]);
        }
    }
    assert(t.subrange(i + a.len(), i + a.len() + b.len()) =~= b) by {
        assert forall|k: int| 0 <= k < b.len() implies t.subrange(
            i + a.len(),
            i + a.len() + b.len(),
        )[k] == b[k] by {
            assert(t.subrange(i, i + w.len())[a.len() + k] == w[a.len() + k]);
        }
    }
}

proof fn lemma_single(t: Seq<Lexeme>, i: int, x: Lexeme)
    requires
        0 <= i,
        i + 1 <= t.len(),
        t.subrange(i, i + 1) == seq![x],
    ensures
        t[i] == x,
        at(t, i) == x,
{
    assert(t.subrange(i, i + 1)[0] == t[i]);
}

proof fn lemma_stmt_starts(s: StmtV)
    ensures
        render_stmt(s).len() >= 1,
        !(render_stmt(s)[0] is RightBrace || render_stmt(s)[0] is EOF),
        s is Expression ==> !(render_stmt(s)[0] is Let || render_stmt(s)[0] is LeftBrace),
{
    match s {
        StmtV::Expression(e) => {
            lemma_render_starts(e);
        },
        _ => {},
    }
}

/// A statement of the parser's shape, written back as tokens, parses back to itself.
proof fn lemma_stmt_back(t: Seq<Lexeme>, i: int, d: int, s: StmtV)
    requires
        0 <= d,
        good_stmt(s, d),
        0 <= i,
        i + render_stmt(s).len() <= t.len(),
        t.subrange(i, i + render_stmt(s).len()) == render_stmt(s),
    ensures
        statement(t, i, d) == (Ok::<StmtV, crate::error::Fault>(s), i + render_stmt(s).len()),
    decreases s,
{
    lemma_stmt_starts(s);
    let w = render_stmt(s);
    assert(t.subrange(i, i + w.len())[0] == t[i]);
    match s {
        StmtV::Let(name, value) => {
            let head = seq![Lexeme::Let, Lexeme::Ident(name), Lexeme::Equals];
            let v = render(value);
            assert(w == head + (v + seq![Lexeme::Semicolon]));
            lemma_split(t, i, head, v + seq![Lexeme::Semicolon]);
            lemma_split(t, i + 3, v, seq![Lexeme::Semicolon]);
            lemma_single(t, i + 3 + v.len(), Lexeme::Semicolon);
            assert(t.subrange(i, i + 3)[1] == t[i + 1]);
            assert(t.subrange(i, i + 3)[2] == t[i + 2]);
            lemma_binary_back(t, i + 3, 0, d, value);
            assert(let_statement(t, i, d) == (
                Ok::<StmtV, crate::error::Fault>(s),
                i + w.len(),
            ));
        },
        StmtV::Expression(e) => {
            let v = render(e);
            lemma_split(t, i, v, seq![Lexeme::Semicolon]);
            lemma_single(t, i + v.len(), Lexeme::Semicolon);
            lemma_binary_back(t, i, 0, d, e);
            assert(expression_statement(t, i, d) == (
                Ok::<StmtV, crate::error::Fault>(s),
                i + w.len(),
            ));
        },
        StmtV::Block(ss) => {
            let body = render_stmts(ss);
            assert(w == seq![Lexeme::LeftBrace] + (body + seq![Lexeme::RightBrace]));
            lemma_split(t, i, seq![Lexeme::LeftBrace], body + seq![Lexeme::RightBrace]);
            lemma_split(t, i + 1, body, seq![Lexeme::RightBrace]);
            lemma_single(t, i + 1 + body.len(), Lexeme::RightBrace);
            lemma_stmts_back(t, i + 1, d + 1, ss);
            assert(block_statement(t, i, d) == (
                Ok::<StmtV, crate::error::Fault>(s),
                i + w.len(),
            ));
        },
    }
}

/// Statements of the parser's shape, written back as tokens and followed by `}` or the
/// end, parse back to themselves.
proof fn lemma_stmts_back(t: Seq<Lexeme>, j: int, d: int, ss: Seq<StmtV>)
    requires
        0 <= d <= MAX_DEPTH,
        good_stmts(ss, d),
        0 <= j,
        j + render_stmts(ss).len() <= t.len(),
        t.subrange(j, j + render_stmts(ss).len()) == render_stmts(ss),
        at(t, j + render_stmts(ss).len()) is RightBrace || at(t, j + render_stmts(ss).len()) is EOF,
    ensures
        block_items(t, j, d) == (
            Ok::<Seq<StmtV>, crate::error::Fault>(ss),
            j + render_stmts(ss).len(),
        ),
    decreases ss,
{
    if ss.len() == 0 {
        assert(ss =~= Seq::<StmtV>::empty());
    } else {
        let first = render_stmt(ss[0]);
        let tail = ss.subrange(1, ss.len() as int);
        let rest = render_stmts(tail);
        lemma_split(t, j, first, rest);
        lemma_stmt_starts(ss[0]);
        assert(t.subrange(j, j + first.len())[0] == t[j]);
        lemma_stmt_back(t, j, d, ss[0]);
        lemma_stmts_back(t, j + first.len(), d, tail);
        assert(seq![ss[0]] + tail =~= ss);
    }
}

/// Statements of the parser's shape, written back as the whole of `t` from `i` on,
/// parse back to themselves without errors.
proof fn lemma_program_back(t: Seq<Lexeme>, i: int, ss: Seq<StmtV>)
    requires
        good_stmts(ss, 0),
        0 <= i,
        i + render_stmts(ss).len() == t.len(),
        t.subrange(i, t.len() as int) == render_stmts(ss),
    ensures
        program_from(t, i) == (ss, Seq::<crate::error::Fault>::empty()),
    decreases ss,
{
    if ss.len() == 0 {
        assert(ss =~= Seq::<StmtV>::empty());
    } else {
        let first = render_stmt(ss[0]);
        let tail = ss.subrange(1, ss.len() as int);
        let rest = render_stmts(tail);
        lemma_split(t, i, first, rest);
        lemma_stmt_starts(ss[0]);
        assert(t.subrange(i, i + first.len())[0] == t[i]);
        lemma_stmt_back(t, i, 0, ss[0]);
        lemma_program_back(t, i + first.len(), tail);
        assert(seq![ss[0]] + tail =~= ss);
    }
}

/// What the statement rule parses has the parser's shape and consumes at least one token.
proof fn lemma_stmt_shape(t: Seq<Lexeme>, i: int, d: int)
    requires
        in_range(t, i, d),
        statement(t, i, d).0 is Ok,
    ensures
        good_stmt(statement(t, i, d).0->Ok_0, d),
        i < statement(t, i, d).1 <= t.len(),
    decreases MAX_DEPTH - d, t.len() - i, 5int,
{
    match at(t, i) {
        Lexeme::Let => {
            if binary(t, i + 3, 0, d).0 is Ok {
                lemma_binary_shape(t, i + 3, 0, d);
            }
        },
        Lexeme::LeftBrace => {
            if d < MAX_DEPTH && block_items(t, i + 1, d + 1).0 is Ok {
                lemma_stmts_shape(t, i + 1, d + 1);
            }
        },
        _ => {
            if binary(t, i, 0, d).0 is Ok {
                lemma_binary_shape(t, i, 0, d);
            }
        },
    }
}

proof fn lemma_stmts_shape(t: Seq<Lexeme>, j: int, d: int)
    requires
        in_range(t, j, d),
        block_items(t, j, d).0 is Ok,
    ensures
        good_stmts(block_items(t, j, d).0->Ok_0, d),
        j <= block_items(t, j, d).1 <= t.len(),
    decreases MAX_DEPTH - d, t.len() - j, 6int,
{
    if !(at(t, j) is RightBrace || at(t, j) is EOF) {
        lemma_stmt_shape(t, j, d);
        let (s, p) = (statement(t, j, d).0->Ok_0, statement(t, j, d).1);
        lemma_stmts_shape(t, p, d);
        let rest = block_items(t, p, d).0->Ok_0;
        assert((seq![s] + rest).subrange(1, rest.len() as int + 1) =~= rest);
        assert((seq![s] + rest)[0] == s);
    }
}

proof fn lemma_program_shape(t: Seq<Lexeme>, i: int)
    requires
        0 <= i <= t.len(),
        program_from(t, i).1.len() == 0,
    ensures
        good_stmts(program_from(t, i).0, 0),
    decreases t.len() - i,
{
    if !(at(t, i) is EOF) {
        lemma_stmt_shape(t, i, 0);
        let (s, p) = (statement(t, i, 0).0->Ok_0, statement(t, i, 0).1);
        lemma_program_shape(t, p);
        let rest = program_from(t, p).0;
        assert((seq![s] + rest).subrange(1, rest.len() as int + 1) =~= rest);
        assert((seq![s] + rest)[0] == s);
    }
}

/// Round trip: a program that parses without errors, written back as tokens, parses
/// again to the same program.
pub proof fn law_program_round_trip(t: Seq<Lexeme>)
    requires
        parse_outcome(t) is Ok,
    ensures
        parse_outcome(render_stmts(parse_outcome(t)->Ok_0)) == parse_outcome(t),
{
    let ss = parse_outcome(t)->Ok_0;
    lemma_program_shape(t, 0);
    let r = render_stmts(ss);
    assert(r.subrange(0, r.len() as int) =~= r);
    lemma_program_back(r, 0, ss);
}

} // verus!
