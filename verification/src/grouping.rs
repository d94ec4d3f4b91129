//! How operators group their operands.

use crate::ast::BinaryOp;
use crate::grammar::{
    advance, binary, binary_op, binary_rest, cast, expr, kind_at, Fault, Input, Parsed,
};
use crate::tree;
use vstd::prelude::*;

verus! {

/// How strongly an operator binds: `||` is the weakest, then `&&`, tests for
/// equality, other comparisons, `|`, `^`, `&`, shifts, sums, and products.
pub open spec fn strength(op: BinaryOp) -> int {
    match op {
        BinaryOp::Or => 1,
        BinaryOp::And => 2,
        BinaryOp::Eq | BinaryOp::Ne => 3,
        BinaryOp::Lt | BinaryOp::Le | BinaryOp::Gt | BinaryOp::Ge => 4,
        BinaryOp::BitOr => 5,
        BinaryOp::BitXor => 6,
        BinaryOp::BitAnd => 7,
        BinaryOp::Shl | BinaryOp::Shr => 8,
        BinaryOp::Add | BinaryOp::Sub => 9,
        BinaryOp::Mul | BinaryOp::Div | BinaryOp::Rem => 10,
    }
}

/// The operator that is applied last: none is weaker, and none behind it is as
/// weak.
pub open spec fn comes_last(os: Seq<BinaryOp>, i: int) -> bool {
    &&& 0 <= i < os.len()
    &&& forall|j: int| 0 <= j < i ==> strength(#[trigger] os[j]) >= strength(os[i])
    &&& forall|j: int| i < j < os.len() ==> strength(#[trigger] os[j]) > strength(os[i])
}

/// Operands with operators between them, grouped: the operator that comes last has
/// all before it on its left, and all behind it on its right.
pub open spec fn grouped(xs: Seq<tree::Expr>, os: Seq<BinaryOp>, e: tree::Expr) -> bool
    decreases os.len(),
{
    if os.len() == 0 {
        xs.len() == 1 && e == xs[0]
    } else {
        &&& xs.len() == os.len() + 1
        &&& exists|i: int| #[trigger]
            comes_last(os, i) && (e.kind matches tree::ExprKind::Binary { op, lhs, rhs } && op
                == os[i] && grouped(xs.take(i + 1), os.take(i), *lhs) && grouped(
                xs.skip(i + 1),
                os.skip(i + 1),
                *rhs,
            ))
    }
}

/// One operand: with its prefix operators, what follows a name, and casts.
#[verifier::opaque]
pub open spec fn operand(s: Input) -> Parsed<tree::Expr> {
    cast(s)
}

#[verifier::opaque]
spec fn climb(s: Input, min: int) -> Parsed<tree::Expr> {
    binary(s, min)
}

#[verifier::opaque]
spec fn climb_on(m: Input, lhs: tree::Expr, min: int) -> Parsed<tree::Expr> {
    binary_rest(m, lhs, min)
}

/// Two operands under an operator.
spec fn node(op: BinaryOp, lhs: tree::Expr, rhs: tree::Expr) -> tree::Expr {
    tree::Expr {
        kind: tree::ExprKind::Binary { op, lhs: Box::new(lhs), rhs: Box::new(rhs) },
        span: crate::token::Span { start: lhs.span.start, end: rhs.span.end },
    }
}

proof fn lemma_climb(s: Input, min: int, x: tree::Expr, m: Input)
    requires
        operand(s) == Ok::<(tree::Expr, Input), Fault>((x, m)),
        m.rest.len() < s.rest.len(),
    ensures
        climb(s, min) == climb_on(m, x, min),
{
    reveal(operand);
    reveal(climb);
    reveal(climb_on);
}

proof fn lemma_climb_stops(m: Input, lhs: tree::Expr, min: int)
    requires
        binary_op(kind_at(m)) matches Some((_, bp)) ==> bp < min,
    ensures
        climb_on(m, lhs, min) == Ok::<(tree::Expr, Input), Fault>((lhs, m)),
{
    reveal(climb_on);
}

proof fn lemma_climb_goes_on(
    m: Input,
    lhs: tree::Expr,
    min: int,
    op: BinaryOp,
    bp: int,
    rhs: tree::Expr,
    m1: Input,
)
    requires
        binary_op(kind_at(m)) == Some((op, bp)),
        bp >= min,
        climb(advance(m), bp + 1) == Ok::<(tree::Expr, Input), Fault>((rhs, m1)),
        m1.rest.len() < m.rest.len(),
    ensures
        climb_on(m, lhs, min) == climb_on(m1, node(op, lhs, rhs), min),
{
    reveal(climb);
    reveal(climb_on);
}

/// Behind an operand: operators and operands, up to `end`, where no operator
/// follows.
pub open spec fn goes_on(
    m: Input,
    xs: Seq<tree::Expr>,
    os: Seq<BinaryOp>,
    end: Input,
) -> bool
    decreases os.len(),
{
    &&& xs.len() == os.len()
    &&& if os.len() == 0 {
        binary_op(kind_at(m)) is None && end == m
    } else {
        &&& binary_op(kind_at(m)) matches Some((op, _)) && op == os[0]
        &&& operand(advance(m)) matches Ok((x, m1)) && x == xs[0] && m1.rest.len() < advance(
            m,
        ).rest.len() && goes_on(m1, xs.drop_first(), os.drop_first(), end)
    }
}

/// Operands with operators between them, from `s` to `end`.
pub open spec fn is_chain(
    s: Input,
    xs: Seq<tree::Expr>,
    os: Seq<BinaryOp>,
    end: Input,
) -> bool {
    &&& xs.len() == os.len() + 1
    &&& operand(s) matches Ok((x, m)) && x == xs[0] && m.rest.len() < s.rest.len() && goes_on(
        m,
        xs.drop_first(),
        os,
        end,
    )
}

proof fn lemma_strength(m: Input)
    ensures
        binary_op(kind_at(m)) matches Some((op, bp)) ==> bp == strength(op) && advance(m).rest.len()
            < m.rest.len(),
{
}

proof fn lemma_joined(
    xs: Seq<tree::Expr>,
    os: Seq<BinaryOp>,
    i: int,
    e: tree::Expr,
    lhs: tree::Expr,
    rhs: tree::Expr,
)
    requires
        xs.len() == os.len() + 1,
        comes_last(os, i),
        e.kind == (tree::ExprKind::Binary { op: os[i], lhs: Box::new(lhs), rhs: Box::new(rhs) }),
        grouped(xs.take(i + 1), os.take(i), lhs),
        grouped(xs.skip(i + 1), os.skip(i + 1), rhs),
    ensures
        grouped(xs, os, e),
{
}

proof fn lemma_binary(
    s: Input,
    min: int,
    xs: Seq<tree::Expr>,
    os: Seq<BinaryOp>,
    end: Input,
) -> (r: (int, tree::Expr, Input))
    requires
        is_chain(s, xs, os, end),
    ensures
        ({
            let (b, e, m) = r;
            &&& 0 <= b <= os.len()
            &&& climb(s, min) == Ok::<(tree::Expr, Input), Fault>((e, m))
            &&& m.rest.len() < s.rest.len()
            &&& goes_on(m, xs.skip(b + 1), os.skip(b), end)
            &&& grouped(xs.take(b + 1), os.take(b), e)
            &&& forall|j: int| 0 <= j < b ==> strength(#[trigger] os[j]) >= min
            &&& b == os.len() || strength(os[b]) < min
        }),
    decreases s.rest.len(), 1int,
{
    let (x, m) = operand(s)->Ok_0;
    lemma_climb(s, min, x, m);
    let left = seq![x];
    let (b, e, m2) = lemma_rest(m, x, min, left, Seq::empty(), xs.drop_first(), os, end);
    assert(left + xs.drop_first().take(b) =~= xs.take(b + 1));
    assert(Seq::<BinaryOp>::empty() + os.take(b) =~= os.take(b));
    assert(xs.drop_first().skip(b) =~= xs.skip(b + 1));
    (b, e, m2)
}

proof fn lemma_rest(
    m: Input,
    lhs: tree::Expr,
    min: int,
    xl: Seq<tree::Expr>,
    ol: Seq<BinaryOp>,
    xs: Seq<tree::Expr>,
    os: Seq<BinaryOp>,
    end: Input,
) -> (r: (int, tree::Expr, Input))
    requires
        goes_on(m, xs, os, end),
        xl.len() == ol.len() + 1,
        grouped(xl, ol, lhs),
        forall|j: int|
            0 <= j < ol.len() && os.len() > 0 ==> strength(#[trigger] ol[j]) >= strength(os[0]),
    ensures
        ({
            let (b, e, m2) = r;
            &&& 0 <= b <= os.len()
            &&& climb_on(m, lhs, min) == Ok::<(tree::Expr, Input), Fault>((e, m2))
            &&& m2.rest.len() <= m.rest.len()
            &&& goes_on(m2, xs.skip(b), os.skip(b), end)
            &&& grouped(xl + xs.take(b), ol + os.take(b), e)
            &&& forall|j: int| 0 <= j < b ==> strength(#[trigger] os[j]) >= min
            &&& b == os.len() || strength(os[b]) < min
        }),
    decreases m.rest.len(), 0int,
{
    lemma_strength(m);
    if os.len() == 0 || strength(os[0]) < min {
        lemma_climb_stops(m, lhs, min);
        assert(xs.skip(0) =~= xs && os.skip(0) =~= os);
        assert(xl + xs.take(0) =~= xl && ol + os.take(0) =~= ol);
        (0, lhs, m)
    } else {
        let op = os[0];
        let bp = strength(op);
        let next = advance(m);
        let more = os.drop_first();
        assert(is_chain(next, xs, more, end));
        let (b, rhs, m1) = lemma_binary(next, bp + 1, xs, more, end);
        let e = node(op, lhs, rhs);
        lemma_climb_goes_on(m, lhs, min, op, bp, rhs, m1);
        // The new left side.
        let x2 = xl + xs.take(b + 1);
        let o2 = ol + os.take(b + 1);
        let i = ol.len() as int;
        assert(x2.take(i + 1) =~= xl);
        assert(o2.take(i) =~= ol);
        assert(x2.skip(i + 1) =~= xs.take(b + 1));
        assert(o2.skip(i + 1) =~= more.take(b));
        assert(comes_last(o2, i)) by {
            assert(o2[i] == op);
            assert forall|j: int| 0 <= j < i implies strength(#[trigger] o2[j]) >= strength(
                o2[i],
            ) by {
                assert(o2[j] == ol[j]);
            }
            assert forall|j: int| i < j < o2.len() implies strength(#[trigger] o2[j]) > strength(
                o2[i],
            ) by {
                assert(o2[j] == more[j - i - 1]);
            }
        }
        lemma_joined(x2, o2, i, e, lhs, rhs);
        let x3 = xs.skip(b + 1);
        let o3 = os.skip(b + 1);
        assert(more.skip(b) =~= o3);
        assert forall|j: int|
            0 <= j < o2.len() && o3.len() > 0 implies strength(#[trigger] o2[j]) >= strength(
            o3[0],
        ) by {
            assert(o3[0] == more[b]);
            assert(strength(more[b]) < bp + 1);
            if j < i {
                assert(o2[j] == ol[j]);
            } else if j > i {
                assert(o2[j] == more[j - i - 1]);
            }
        }
        let (b2, e2, m2) = lemma_rest(m1, e, min, x2, o2, x3, o3, end);
        let b3 = b + 1 + b2;
        assert(x2 + x3.take(b2) =~= xl + xs.take(b3));
        assert(o2 + o3.take(b2) =~= ol + os.take(b3));
        assert(x3.skip(b2) =~= xs.skip(b3));
        assert(o3.skip(b2) =~= os.skip(b3));
        assert forall|j: int| 0 <= j < b3 implies strength(#[trigger] os[j]) >= min by {
            if j == 0 {
            } else if j < b + 1 {
                assert(os[j] == more[j - 1]);
            } else {
                assert(os[j] == o3[j - b - 1]);
            }
        }
        if b3 < os.len() {
            assert(os[b3] == o3[b2]);
        }
        (b3, e2, m2)
    }
}

/// Operands with operators between them are parsed whole, and grouped by how
/// strongly the operators bind, those of one strength from the left.
pub proof fn lemma_operators_group(
    s: Input,
    xs: Seq<tree::Expr>,
    os: Seq<BinaryOp>,
    end: Input,
)
    requires
        is_chain(s, xs, os, end),
    ensures
        expr(s) matches Ok((e, rest)) && rest == end && grouped(xs, os, e),
{
    reveal(climb);
    let (b, e, m) = lemma_binary(s, 0, xs, os, end);
    assert(b == os.len()) by {
        if b < os.len() {
            assert(strength(os[b]) >= 1);
        }
    }
    assert(xs.take(b + 1) =~= xs && os.take(b) =~= os);
    assert(os.skip(b) =~= Seq::empty());
}

} // verus!
