use vstd::prelude::*;
use crate::clause::{
    all_in, clause_holds, diff_all, diff_clause, diff_step, form_holds, leaf_clause, meet,
    meet_each, none_in, product, ClauseV, Point, Primitive,
};
use crate::tree::{canon, leaf, node, InterTree, Interaction};

verus! {

/// The point lies in the solid that the tree describes.
pub open spec fn tree_holds(t: InterTree, pt: Point) -> bool
    decreases t,
{
    match t {
        InterTree::Item(p) => pt(p),
        InterTree::Node(op, a, b) => match op {
            Interaction::Union => tree_holds(*a, pt) || tree_holds(*b, pt),
            Interaction::Inter => tree_holds(*a, pt) && tree_holds(*b, pt),
            Interaction::Diff => tree_holds(*a, pt) && !tree_holds(*b, pt),
        },
    }
}

/// No clause of `cs` has more than one primitive to stay outside of.
pub open spec fn single_out(cs: Seq<ClauseV>) -> bool {
    forall|k: int| 0 <= k < cs.len() ==> #[trigger] cs[k].outside.len() <= 1
}

/// Every difference in the tree takes away a form whose clauses have at most
/// one primitive to stay outside of: the trees on which the canonical form
/// is exactly the solid.
pub open spec fn exact(t: InterTree) -> bool
    decreases t,
{
    match t {
        InterTree::Item(_) => true,
        InterTree::Node(op, a, b) => exact(*a) && exact(*b) && (op == Interaction::Diff
            ==> single_out(canon(*b))),
    }
}

proof fn lemma_all_in_concat(a: Seq<Primitive>, b: Seq<Primitive>, pt: Point)
    ensures
        all_in(a + b, pt) == (all_in(a, pt) && all_in(b, pt)),
        none_in(a + b, pt) == (none_in(a, pt) && none_in(b, pt)),
{
    let s = a + b;
    assert forall|i: int| 0 <= i < a.len() implies s[i] == a[i] by {}
    assert forall|i: int| 0 <= i < b.len() implies s[i + a.len()] == b[i] by {}
    if all_in(s, pt) {
        assert forall|i: int| 0 <= i < a.len() implies pt(a[i]) by {
            assert(pt(s[i]));
        }
        assert forall|i: int| 0 <= i < b.len() implies pt(b[i]) by {
            assert(pt(s[i + a.len()]));
        }
    }
    if none_in(s, pt) {
        assert forall|i: int| 0 <= i < a.len() implies !pt(a[i]) by {
            assert(!pt(s[i]));
        }
        assert forall|i: int| 0 <= i < b.len() implies !pt(b[i]) by {
            assert(!pt(s[i + a.len()]));
        }
    }
    assert forall|i: int| 0 <= i < s.len() && i >= a.len() implies s[i] == b[i - a.len()] by {}
}

proof fn lemma_none_in_push(a: Seq<Primitive>, z: Primitive, pt: Point)
    ensures
        none_in(a.push(z), pt) == (none_in(a, pt) && !pt(z)),
{
    assert(a.push(z) =~= a + seq![z]);
    lemma_all_in_concat(a, seq![z], pt);
    assert(seq![z][0] == z);
}

proof fn lemma_concat_holds(a: Seq<ClauseV>, b: Seq<ClauseV>, pt: Point)
    ensures
        form_holds(a + b, pt) == (form_holds(a, pt) || form_holds(b, pt)),
{
    let s = a + b;
    if form_holds(s, pt) {
        let k = choose|k: int| 0 <= k < s.len() && clause_holds(#[trigger] s[k], pt);
        if k < a.len() {
            assert(s[k] == a[k]);
        } else {
            assert(s[k] == b[k - a.len()]);
        }
    }
    if form_holds(a, pt) {
        let k = choose|k: int| 0 <= k < a.len() && clause_holds(#[trigger] a[k], pt);
        assert(s[k] == a[k]);
    }
    if form_holds(b, pt) {
        let k = choose|k: int| 0 <= k < b.len() && clause_holds(#[trigger] b[k], pt);
        assert(s[k + a.len()] == b[k]);
    }
}

proof fn lemma_meet_holds(x: ClauseV, y: ClauseV, pt: Point)
    ensures
        clause_holds(meet(x, y), pt) == (clause_holds(x, pt) && clause_holds(y, pt)),
{
    lemma_all_in_concat(x.inside, y.inside, pt);
    lemma_all_in_concat(x.outside, y.outside, pt);
}

proof fn lemma_meet_each_holds(x: ClauseV, ys: Seq<ClauseV>, pt: Point)
    ensures
        form_holds(meet_each(x, ys), pt) == (clause_holds(x, pt) && form_holds(ys, pt)),
{
    let m = meet_each(x, ys);
    if form_holds(m, pt) {
        let k = choose|k: int| 0 <= k < m.len() && clause_holds(#[trigger] m[k], pt);
        lemma_meet_holds(x, ys[k], pt);
    }
    if clause_holds(x, pt) && form_holds(ys, pt) {
        let k = choose|k: int| 0 <= k < ys.len() && clause_holds(#[trigger] ys[k], pt);
        lemma_meet_holds(x, ys[k], pt);
        assert(m[k] == meet(x, ys[k]));
    }
}

proof fn lemma_product_holds(xs: Seq<ClauseV>, ys: Seq<ClauseV>, pt: Point)
    ensures
        form_holds(product(xs, ys), pt) == (form_holds(xs, pt) && form_holds(ys, pt)),
    decreases xs.len(),
{
    if xs.len() > 0 {
        let init = xs.drop_last();
        lemma_product_holds(init, ys, pt);
        lemma_concat_holds(product(init, ys), meet_each(xs.last(), ys), pt);
        lemma_meet_each_holds(xs.last(), ys, pt);
        assert(xs =~= init.push(xs.last()));
        assert(init.push(xs.last()) =~= init + seq![xs.last()]);
        lemma_concat_holds(init, seq![xs.last()], pt);
        if clause_holds(xs.last(), pt) {
            assert(clause_holds(seq![xs.last()][0], pt));
        }
        if form_holds(seq![xs.last()], pt) {
            let k = choose|k: int| 0 <= k < 1 && clause_holds(#[trigger] seq![xs.last()][k], pt);
            assert(k == 0);
        }
    }
}

proof fn lemma_product_len(xs: Seq<ClauseV>, ys: Seq<ClauseV>)
    ensures
        product(xs, ys).len() == xs.len() * ys.len(),
    decreases xs.len(),
{
    if xs.len() > 0 {
        lemma_product_len(xs.drop_last(), ys);
        assert((xs.len() - 1) * ys.len() + ys.len() == xs.len() * ys.len()) by (nonlinear_arith);
    }
}

/// Which points the clauses of `diff_clause(x, y)` cover, in terms of `x`
/// and of the parts of `y`.
proof fn lemma_diff_clause_holds(x: ClauseV, y: ClauseV, pt: Point)
    ensures
        form_holds(diff_clause(x, y), pt) == (clause_holds(x, pt) && ((exists|i: int|
            0 <= i < y.inside.len() && !pt(#[trigger] y.inside[i])) || (y.outside.len() > 0
            && all_in(y.outside, pt)))),
{
    let f = |z: Primitive| ClauseV { inside: x.inside, outside: x.outside.push(z) };
    let a = y.inside.map_values(f);
    let b = if y.outside.len() > 0 {
        seq![ClauseV { inside: x.inside + y.outside, outside: x.outside }]
    } else {
        Seq::<ClauseV>::empty()
    };
    assert(diff_clause(x, y) == a + b);
    lemma_concat_holds(a, b, pt);
    assert forall|i: int| 0 <= i < y.inside.len() implies clause_holds(#[trigger] a[i], pt) == (
    clause_holds(x, pt) && !pt(y.inside[i])) by {
        lemma_none_in_push(x.outside, y.inside[i], pt);
    }
    if form_holds(a, pt) {
        let k = choose|k: int| 0 <= k < a.len() && clause_holds(#[trigger] a[k], pt);
        assert(!pt(y.inside[k]));
    }
    if clause_holds(x, pt) && (exists|i: int|
        0 <= i < y.inside.len() && !pt(#[trigger] y.inside[i])) {
        let i = choose|i: int| 0 <= i < y.inside.len() && !pt(#[trigger] y.inside[i]);
        assert(clause_holds(a[i], pt));
    }
    if y.outside.len() > 0 {
        lemma_all_in_concat(x.inside, y.outside, pt);
        if form_holds(b, pt) {
            let k = choose|k: int| 0 <= k < b.len() && clause_holds(#[trigger] b[k], pt);
            assert(k == 0);
        }
        if clause_holds(x, pt) && all_in(y.outside, pt) {
            assert(clause_holds(b[0], pt));
        }
    }
}

/// What `!clause_holds(y, pt)` says, part by part.
proof fn lemma_not_clause(y: ClauseV, pt: Point)
    ensures
        !clause_holds(y, pt) == ((exists|i: int|
            0 <= i < y.inside.len() && !pt(#[trigger] y.inside[i])) || (exists|j: int|
            0 <= j < y.outside.len() && pt(#[trigger] y.outside[j]))),
{
}

/// Taking a clause `y` away from a clause `x` never covers a point outside
/// `x` or inside `y`, whatever the size of `y.outside`.
pub proof fn law_difference_step_sound(x: ClauseV, y: ClauseV, pt: Point)
    ensures
        form_holds(diff_clause(x, y), pt) ==> clause_holds(x, pt) && !clause_holds(y, pt),
{
    lemma_diff_clause_holds(x, y, pt);
    lemma_not_clause(y, pt);
    if y.outside.len() > 0 && all_in(y.outside, pt) {
        assert(pt(y.outside[0]));
    }
}

/// When `y` has at most one primitive to stay outside of, the clauses of
/// `diff_clause(x, y)` cover exactly the points of `x` that are not in `y`.
pub proof fn law_difference_step_exact(x: ClauseV, y: ClauseV, pt: Point)
    requires
        y.outside.len() <= 1,
    ensures
        form_holds(diff_clause(x, y), pt) == (clause_holds(x, pt) && !clause_holds(y, pt)),
{
    lemma_diff_clause_holds(x, y, pt);
    lemma_not_clause(y, pt);
    if exists|j: int| 0 <= j < y.outside.len() && pt(#[trigger] y.outside[j]) {
        let j = choose|j: int| 0 <= j < y.outside.len() && pt(#[trigger] y.outside[j]);
        assert(j == 0);
        assert(all_in(y.outside, pt));
    }
    if y.outside.len() > 0 && all_in(y.outside, pt) {
        assert(pt(y.outside[0]));
    }
}

proof fn lemma_diff_step_holds(acc: Seq<ClauseV>, y: ClauseV, pt: Point)
    ensures
        form_holds(diff_step(acc, y), pt) ==> form_holds(acc, pt) && !clause_holds(y, pt),
        y.outside.len() <= 1 ==> form_holds(diff_step(acc, y), pt) == (form_holds(acc, pt)
            && !clause_holds(y, pt)),
    decreases acc.len(),
{
    if acc.len() > 0 {
        let init = acc.drop_last();
        lemma_diff_step_holds(init, y, pt);
        lemma_concat_holds(diff_step(init, y), diff_clause(acc.last(), y), pt);
        law_difference_step_sound(acc.last(), y, pt);
        if y.outside.len() <= 1 {
            law_difference_step_exact(acc.last(), y, pt);
        }
        assert(acc =~= init + seq![acc.last()]);
        lemma_concat_holds(init, seq![acc.last()], pt);
        if clause_holds(acc.last(), pt) {
            assert(clause_holds(seq![acc.last()][0], pt));
        }
        if form_holds(seq![acc.last()], pt) {
            let k = choose|k: int| 0 <= k < 1 && clause_holds(#[trigger] seq![acc.last()][k], pt);
            assert(k == 0);
        }
    }
}

proof fn lemma_diff_all_holds(acc: Seq<ClauseV>, ys: Seq<ClauseV>, pt: Point)
    ensures
        form_holds(diff_all(acc, ys), pt) ==> form_holds(acc, pt) && !form_holds(ys, pt),
        single_out(ys) ==> form_holds(diff_all(acc, ys), pt) == (form_holds(acc, pt)
            && !form_holds(ys, pt)),
    decreases ys.len(),
{
    if ys.len() > 0 {
        let rest = ys.drop_first();
        lemma_diff_step_holds(acc, ys[0], pt);
        lemma_diff_all_holds(diff_step(acc, ys[0]), rest, pt);
        assert(ys =~= seq![ys[0]] + rest);
        lemma_concat_holds(seq![ys[0]], rest, pt);
        if clause_holds(ys[0], pt) {
            assert(clause_holds(seq![ys[0]][0], pt));
        }
        if form_holds(seq![ys[0]], pt) {
            let k = choose|k: int| 0 <= k < 1 && clause_holds(#[trigger] seq![ys[0]][k], pt);
            assert(k == 0);
        }
        if single_out(ys) {
            assert(ys[0].outside.len() <= 1);
            assert forall|k: int| 0 <= k < rest.len() implies #[trigger] rest[k].outside.len()
                <= 1 by {
                assert(rest[k] == ys[k + 1]);
            }
        }
    }
}

/// On trees whose differences only take away clauses with at most one
/// primitive to stay outside of, the canonical form covers exactly the points
/// of the solid that the tree describes.
pub proof fn theorem_canonical_equivalent(t: InterTree, pt: Point)
    requires
        exact(t),
    ensures
        form_holds(canon(t), pt) == tree_holds(t, pt),
    decreases t,
{
    match t {
        InterTree::Item(p) => {
            let c = canon(t);
            assert(c[0].inside == seq![p]);
            if pt(p) {
                assert(clause_holds(c[0], pt));
            }
            if form_holds(c, pt) {
                let k = choose|k: int| 0 <= k < c.len() && clause_holds(#[trigger] c[k], pt);
                assert(k == 0);
                assert(pt(c[0].inside[0]));
            }
        },
        InterTree::Node(op, a, b) => {
            theorem_canonical_equivalent(*a, pt);
            theorem_canonical_equivalent(*b, pt);
            match op {
                Interaction::Union => lemma_concat_holds(canon(*a), canon(*b), pt),
                Interaction::Inter => lemma_product_holds(canon(*a), canon(*b), pt),
                Interaction::Diff => lemma_diff_all_holds(canon(*a), canon(*b), pt),
            }
        },
    }
}

/// A single primitive reduces to the one clause "inside it, outside
/// nothing".
pub proof fn law_leaf_identity(p: Primitive)
    ensures
        canon(leaf(p)) == seq![leaf_clause(p)],
        canon(leaf(p))[0].inside == seq![p],
        canon(leaf(p))[0].outside.len() == 0,
{
}

/// A union reduces to the clauses of its left operand followed by those of
/// its right one. Swapping the operands covers the same points, and
/// regrouping a chain of unions gives the same clauses.
pub proof fn law_union_concatenates(a: InterTree, b: InterTree, c: InterTree, pt: Point)
    ensures
        canon(node(Interaction::Union, a, b)) == canon(a) + canon(b),
        form_holds(canon(node(Interaction::Union, a, b)), pt) == form_holds(
            canon(node(Interaction::Union, b, a)),
            pt,
        ),
        canon(node(Interaction::Union, node(Interaction::Union, a, b), c)) == canon(
            node(Interaction::Union, a, node(Interaction::Union, b, c)),
        ),
{
    lemma_concat_holds(canon(a), canon(b), pt);
    lemma_concat_holds(canon(b), canon(a), pt);
    let ab = node(Interaction::Union, a, b);
    let bc = node(Interaction::Union, b, c);
    assert(canon(ab) == canon(a) + canon(b));
    assert(canon(bc) == canon(b) + canon(c));
    assert(canon(node(Interaction::Union, ab, c)) == canon(ab) + canon(c));
    assert(canon(node(Interaction::Union, a, bc)) == canon(a) + canon(bc));
    assert(canon(a) + canon(b) + canon(c) =~= canon(a) + (canon(b) + canon(c)));
}

/// An intersection has as many clauses as the product of the numbers of
/// clauses of its operands.
pub proof fn law_intersection_count(a: InterTree, b: InterTree)
    ensures
        canon(node(Interaction::Inter, a, b)).len() == canon(a).len() * canon(b).len(),
{
    lemma_product_len(canon(a), canon(b));
}

/// The intersection of two primitives is the one clause "inside both,
/// outside nothing".
pub proof fn law_intersection_of_leaves(p1: Primitive, p2: Primitive)
    ensures
        canon(node(Interaction::Inter, leaf(p1), leaf(p2))) == seq![
            ClauseV { inside: seq![p1, p2], outside: Seq::empty() },
        ],
{
    let xs = seq![leaf_clause(p1)];
    let ys = seq![leaf_clause(p2)];
    assert(canon(leaf(p1)) == xs);
    assert(canon(leaf(p2)) == ys);
    assert(xs.drop_last() =~= Seq::<ClauseV>::empty());
    assert(product(xs.drop_last(), ys) =~= Seq::<ClauseV>::empty());
    assert(product(xs, ys) == product(xs.drop_last(), ys) + meet_each(xs.last(), ys));
    assert(meet_each(leaf_clause(p1), ys) =~= seq![meet(leaf_clause(p1), leaf_clause(p2))]);
    assert(seq![p1] + seq![p2] =~= seq![p1, p2]);
    assert(Seq::<Primitive>::empty() + Seq::<Primitive>::empty() =~= Seq::<Primitive>::empty());
    assert(product(xs, ys) =~= seq![ClauseV { inside: seq![p1, p2], outside: Seq::empty() }]);
}

proof fn lemma_single_out_one(cs: Seq<ClauseV>)
    requires
        cs.len() == 1,
        cs[0].outside.len() <= 1,
    ensures
        single_out(cs),
{
    assert forall|k: int| 0 <= k < cs.len() implies #[trigger] cs[k].outside.len() <= 1 by {
        assert(k == 0);
    }
}

proof fn lemma_diff_all_single(x: ClauseV, y: ClauseV)
    ensures
        diff_all(seq![x], seq![y]) == diff_clause(x, y),
{
    let xs = seq![x];
    let ys = seq![y];
    assert(ys.drop_first() =~= Seq::<ClauseV>::empty());
    assert(xs.drop_last() =~= Seq::<ClauseV>::empty());
    assert(diff_step(xs.drop_last(), y) =~= Seq::<ClauseV>::empty());
    assert(diff_step(xs, y) =~= diff_clause(x, y));
    assert(diff_all(diff_step(xs, y), ys.drop_first()) == diff_step(xs, y));
}

/// `diff_clause(x, y)` when `y` has one primitive to stay inside of.
proof fn lemma_diff_clause_one_in(x: ClauseV, c: Primitive, outs: Seq<Primitive>)
    ensures
        diff_clause(x, ClauseV { inside: seq![c], outside: outs }) == seq![
            ClauseV { inside: x.inside, outside: x.outside.push(c) },
        ] + if outs.len() > 0 {
            seq![ClauseV { inside: x.inside + outs, outside: x.outside }]
        } else {
            Seq::<ClauseV>::empty()
        },
{
    let f = |z: Primitive| ClauseV { inside: x.inside, outside: x.outside.push(z) };
    assert(seq![c].map_values(f) =~= seq![f(c)]);
}

/// Taking away `c` without `d` from `a` gives exactly two clauses, "inside
/// `a`, outside `c`" and "inside `a` and `d`", and these cover exactly the
/// points of `a \ (c \ d)`.
pub proof fn law_difference_single_out(a: Primitive, c: Primitive, d: Primitive, pt: Point)
    ensures
        canon(node(Interaction::Diff, leaf(c), leaf(d))) == seq![
            ClauseV { inside: seq![c], outside: seq![d] },
        ],
        canon(node(Interaction::Diff, leaf(a), node(Interaction::Diff, leaf(c), leaf(d))))
            == seq![
            ClauseV { inside: seq![a], outside: seq![c] },
            ClauseV { inside: seq![a, d], outside: Seq::empty() },
        ],
        form_holds(
            canon(node(Interaction::Diff, leaf(a), node(Interaction::Diff, leaf(c), leaf(d)))),
            pt,
        ) == (pt(a) && !(pt(c) && !pt(d))),
{
    let inner = node(Interaction::Diff, leaf(c), leaf(d));
    let t = node(Interaction::Diff, leaf(a), inner);
    assert(canon(leaf(c)) == seq![leaf_clause(c)]);
    assert(canon(leaf(d)) == seq![leaf_clause(d)]);
    assert(canon(leaf(a)) == seq![leaf_clause(a)]);
    lemma_diff_all_single(leaf_clause(c), leaf_clause(d));
    lemma_diff_clause_one_in(leaf_clause(c), d, Seq::empty());
    assert(Seq::<Primitive>::empty().push(d) =~= seq![d]);
    let y = ClauseV { inside: seq![c], outside: seq![d] };
    assert(canon(inner) =~= seq![y]);
    lemma_diff_all_single(leaf_clause(a), y);
    lemma_diff_clause_one_in(leaf_clause(a), c, seq![d]);
    assert(Seq::<Primitive>::empty().push(c) =~= seq![c]);
    assert(seq![a] + seq![d] =~= seq![a, d]);
    assert(canon(t) =~= seq![
        ClauseV { inside: seq![a], outside: seq![c] },
        ClauseV { inside: seq![a, d], outside: Seq::empty() },
    ]);
    lemma_single_out_one(canon(leaf(d)));
    lemma_single_out_one(canon(inner));
    assert(exact(leaf(c)) && exact(leaf(d)) && exact(leaf(a)));
    assert(exact(inner));
    assert(exact(t));
    theorem_canonical_equivalent(t, pt);
}

/// Taking away `c` without both `d1` and `d2` from `a` gives the clauses
/// "inside `a`, outside `c`" and "inside `a`, `d1` and `d2`": the two
/// primitives to stay outside of are folded into one clause. Every point
/// these clauses cover lies in `a \ (c \ (d1 | d2))`; a point inside `a`,
/// `c` and only one of `d1`, `d2` lies in that solid but in no clause.
pub proof fn law_difference_multi_out(
    a: Primitive,
    c: Primitive,
    d1: Primitive,
    d2: Primitive,
    pt: Point,
)
    ensures
        canon(
            node(Interaction::Diff, leaf(c), node(Interaction::Union, leaf(d1), leaf(d2))),
        ) == seq![ClauseV { inside: seq![c], outside: seq![d1, d2] }],
        canon(
            node(
                Interaction::Diff,
                leaf(a),
                node(Interaction::Diff, leaf(c), node(Interaction::Union, leaf(d1), leaf(d2))),
            ),
        ) == seq![
            ClauseV { inside: seq![a], outside: seq![c] },
            ClauseV { inside: seq![a, d1, d2], outside: Seq::empty() },
        ],
        form_holds(
            canon(
                node(
                    Interaction::Diff,
                    leaf(a),
                    node(Interaction::Diff, leaf(c), node(Interaction::Union, leaf(d1), leaf(d2))),
                ),
            ),
            pt,
        ) == (pt(a) && !pt(c) || pt(a) && pt(d1) && pt(d2)),
        form_holds(
            canon(
                node(
                    Interaction::Diff,
                    leaf(a),
                    node(Interaction::Diff, leaf(c), node(Interaction::Union, leaf(d1), leaf(d2))),
                ),
            ),
            pt,
        ) ==> tree_holds(
            node(
                Interaction::Diff,
                leaf(a),
                node(Interaction::Diff, leaf(c), node(Interaction::Union, leaf(d1), leaf(d2))),
            ),
            pt,
        ),
{
    let ds = node(Interaction::Union, leaf(d1), leaf(d2));
    let inner = node(Interaction::Diff, leaf(c), ds);
    let t = node(Interaction::Diff, leaf(a), inner);
    assert(canon(leaf(c)) == seq![leaf_clause(c)]);
    assert(canon(leaf(a)) == seq![leaf_clause(a)]);
    assert(canon(leaf(d1)) == seq![leaf_clause(d1)]);
    assert(canon(leaf(d2)) == seq![leaf_clause(d2)]);
    let cds = seq![leaf_clause(d1), leaf_clause(d2)];
    assert(canon(ds) =~= cds);
    // first subtrahend clause
    let step1 = diff_step(seq![leaf_clause(c)], leaf_clause(d1));
    assert(seq![leaf_clause(c)].drop_last() =~= Seq::<ClauseV>::empty());
    assert(diff_step(Seq::<ClauseV>::empty(), leaf_clause(d1)) =~= Seq::<ClauseV>::empty());
    lemma_diff_clause_one_in(leaf_clause(c), d1, Seq::empty());
    assert(Seq::<Primitive>::empty().push(d1) =~= seq![d1]);
    let y1 = ClauseV { inside: seq![c], outside: seq![d1] };
    assert(step1 =~= seq![y1]);
    assert(cds[0] == leaf_clause(d1));
    assert(cds.drop_first() =~= seq![leaf_clause(d2)]);
    assert(diff_all(seq![leaf_clause(c)], cds) == diff_all(step1, seq![leaf_clause(d2)]));
    // second subtrahend clause
    lemma_diff_all_single(y1, leaf_clause(d2));
    lemma_diff_clause_one_in(y1, d2, Seq::empty());
    assert(seq![d1].push(d2) =~= seq![d1, d2]);
    let y = ClauseV { inside: seq![c], outside: seq![d1, d2] };
    assert(canon(inner) =~= seq![y]);
    // outer difference
    lemma_diff_all_single(leaf_clause(a), y);
    lemma_diff_clause_one_in(leaf_clause(a), c, seq![d1, d2]);
    assert(Seq::<Primitive>::empty().push(c) =~= seq![c]);
    assert(seq![a] + seq![d1, d2] =~= seq![a, d1, d2]);
    let r = seq![
        ClauseV { inside: seq![a], outside: seq![c] },
        ClauseV { inside: seq![a, d1, d2], outside: Seq::empty() },
    ];
    assert(canon(t) =~= r);
    // what the two clauses cover
    if form_holds(r, pt) {
        let k = choose|k: int| 0 <= k < r.len() && clause_holds(#[trigger] r[k], pt);
        if k == 0 {
            assert(pt(r[0].inside[0]) && !pt(r[0].outside[0]));
        } else {
            assert(pt(r[1].inside[0]) && pt(r[1].inside[1]) && pt(r[1].inside[2]));
        }
    }
    if pt(a) && !pt(c) {
        assert(clause_holds(r[0], pt));
    }
    if pt(a) && pt(d1) && pt(d2) {
        assert(clause_holds(r[1], pt));
    }
    // soundness against the solid
    assert forall|k: int| 0 <= k < cds.len() implies #[trigger] cds[k].outside.len() <= 1 by {
        if k == 0 {
            assert(cds[0] == leaf_clause(d1));
        } else {
            assert(cds[1] == leaf_clause(d2));
        }
    }
    assert(single_out(canon(ds)));
    assert(exact(leaf(c)) && exact(leaf(d1)) && exact(leaf(d2)));
    assert(exact(ds));
    assert(exact(inner));
    theorem_canonical_equivalent(inner, pt);
    lemma_diff_all_holds(canon(leaf(a)), canon(inner), pt);
    theorem_canonical_equivalent(leaf(a), pt);
}

} // verus!
