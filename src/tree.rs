use vstd::prelude::*;
use crate::clause::{
    diff_all, diff_clause, diff_step, form_view, leaf_clause, meet, meet_each, product, vec_union,
    Clause, ClauseV, Primitive,
};

verus! {

/// The three set operations of the algebra.
#[derive(Clone, Copy, Debug, PartialEq, Eq, Structural)]
pub enum Interaction {
    Inter,
    Diff,
    Union,
}

/// An expression over primitive solids. Trees are never mutated: each
/// operation builds a new node over its operands.
#[derive(Debug)]
pub enum InterTree {
    Item(Primitive),
    Node(Interaction, Box<InterTree>, Box<InterTree>),
}

/// An expression tree as handed to scene assembly.
#[derive(Debug)]
pub struct Construct {
    pub contents: InterTree,
}

/// The canonical form of a tree: the union of clauses it reduces to.
///
/// An intersection yields `|canon(a)| * |canon(b)|` clauses, so deep trees of
/// intersections grow quickly; that growth is inherent to the normal form.
pub open spec fn canon(t: InterTree) -> Seq<ClauseV>
    decreases t,
{
    match t {
        InterTree::Item(p) => seq![leaf_clause(p)],
        InterTree::Node(op, a, b) => {
            let ca = canon(*a);
            let cb = canon(*b);
            match op {
                Interaction::Union => ca + cb,
                Interaction::Inter => product(ca, cb),
                Interaction::Diff => diff_all(ca, cb),
            }
        },
    }
}

/// The tree of a single primitive.
pub open spec fn leaf(p: Primitive) -> InterTree {
    InterTree::Item(p)
}

/// The tree `op(a, b)`.
pub open spec fn node(op: Interaction, a: InterTree, b: InterTree) -> InterTree {
    InterTree::Node(op, Box::new(a), Box::new(b))
}

impl InterTree {
    pub fn wrap(self) -> (r: Construct)
        ensures
            r.contents == self,
    {
        Construct { contents: self }
    }

    /// The intersection of `self` and `other`.
    pub fn inter(self, other: Self) -> (r: Self)
        ensures
            r == node(Interaction::Inter, self, other),
    {
        InterTree::Node(Interaction::Inter, Box::new(self), Box::new(other))
    }

    /// `self` without `other`.
    pub fn diff(self, other: Self) -> (r: Self)
        ensures
            r == node(Interaction::Diff, self, other),
    {
        InterTree::Node(Interaction::Diff, Box::new(self), Box::new(other))
    }

    /// The union of `self` and `other`.
    pub fn union(self, other: Self) -> (r: Self)
        ensures
            r == node(Interaction::Union, self, other),
    {
        InterTree::Node(Interaction::Union, Box::new(self), Box::new(other))
    }

    /// A copy of the tree.
    pub fn duplicate(&self) -> (r: Self)
        ensures
            r == *self,
        decreases self,
    {
        match self {
            InterTree::Item(p) => InterTree::Item(*p),
            InterTree::Node(op, a, b) => {
                let a2 = a.duplicate();
                let b2 = b.duplicate();
                InterTree::Node(*op, Box::new(a2), Box::new(b2))
            },
        }
    }

    /// The canonical form of the tree.
    pub fn canonical(&self) -> (r: Vec<Clause>)
        ensures
            form_view(r@) == canon(*self),
        decreases self,
    {
        match self {
            InterTree::Item(p) => {
                let mut r: Vec<Clause> = Vec::new();
                r.push(p.extract());
                assert(form_view(r@) =~= canon(*self));
                r
            },
            InterTree::Node(op, a, b) => {
                let a_can = a.canonical();
                let b_can = b.canonical();
                match op {
                    Interaction::Union => concat_forms(a_can, b_can),
                    Interaction::Inter => intersect_forms(&a_can, &b_can),
                    Interaction::Diff => subtract_forms(a_can, &b_can),
                }
            },
        }
    }
}

impl Primitive {
    /// The tree of this primitive alone, ready for scene assembly.
    pub fn wrap(self) -> (r: Construct)
        ensures
            r.contents == leaf(self),
    {
        InterTree::Item(self).wrap()
    }
}

impl Construct {
    /// The intersection of the two constructs; neither operand changes.
    pub fn inter(&self, other: &Construct) -> (r: Self)
        ensures
            r.contents == node(Interaction::Inter, self.contents, other.contents),
    {
        Construct { contents: self.contents.duplicate().inter(other.contents.duplicate()) }
    }

    /// The union of the two constructs; neither operand changes.
    pub fn union(&self, other: &Construct) -> (r: Self)
        ensures
            r.contents == node(Interaction::Union, self.contents, other.contents),
    {
        Construct { contents: self.contents.duplicate().union(other.contents.duplicate()) }
    }

    /// `self` without `other`; neither operand changes.
    pub fn diff(&self, other: &Construct) -> (r: Self)
        ensures
            r.contents == node(Interaction::Diff, self.contents, other.contents),
    {
        Construct { contents: self.contents.duplicate().diff(other.contents.duplicate()) }
    }

    /// The canonical form of the construct.
    pub fn canonical(&self) -> (r: Vec<Clause>)
        ensures
            form_view(r@) == canon(self.contents),
    {
        self.contents.canonical()
    }
}

/// The clauses of `a` followed by those of `b`.
fn concat_forms(a: Vec<Clause>, b: Vec<Clause>) -> (r: Vec<Clause>)
    ensures
        form_view(r@) == form_view(a@) + form_view(b@),
{
    let ghost fa = form_view(a@);
    let ghost fb = form_view(b@);
    let mut r = a;
    let mut b = b;
    r.append(&mut b);
    assert(form_view(r@) =~= fa + fb);
    r
}

/// `meet(x, y)` for each `y` of `ys`, pushed onto `res`.
fn push_meets(res: &mut Vec<Clause>, x: &Clause, ys: &Vec<Clause>)
    ensures
        form_view(final(res)@) == form_view(old(res)@) + meet_each(x@, form_view(ys@)),
{
    let ghost start = form_view(res@);
    let mut j: usize = 0;
    while j < ys.len()
        invariant
            j <= ys.len(),
            form_view(res@) == start + meet_each(x@, form_view(ys@).subrange(0, j as int)),
        decreases ys.len() - j,
    {
        let y = &ys[j];
        let c = Clause {
            inside: vec_union(&x.inside, &y.inside),
            outside: vec_union(&x.outside, &y.outside),
        };
        proof {
            assert(c@ == meet(x@, y@));
        }
        let ghost before = res@;
        res.push(c);
        j += 1;
        proof {
            lemma_form_view_push(before, c);
            assert(meet_each(x@, form_view(ys@).subrange(0, j as int)) =~= meet_each(
                x@,
                form_view(ys@).subrange(0, j - 1),
            ).push(meet(x@, ys@[j - 1]@)));
        }
        assert(form_view(res@) =~= start + meet_each(x@, form_view(ys@).subrange(0, j as int)));
    }
    assert(form_view(ys@).subrange(0, ys.len() as int) =~= form_view(ys@));
}

/// The cartesian product of two canonical forms.
fn intersect_forms(a: &Vec<Clause>, b: &Vec<Clause>) -> (r: Vec<Clause>)
    ensures
        form_view(r@) == product(form_view(a@), form_view(b@)),
{
    let mut res: Vec<Clause> = Vec::new();
    let mut i: usize = 0;
    while i < a.len()
        invariant
            i <= a.len(),
            form_view(res@) == product(form_view(a@).subrange(0, i as int), form_view(b@)),
        decreases a.len() - i,
    {
        proof {
            let s = form_view(a@).subrange(0, i + 1);
            assert(s.drop_last() =~= form_view(a@).subrange(0, i as int));
            assert(s.last() == a@[i as int]@);
        }
        push_meets(&mut res, &a[i], b);
        i += 1;
    }
    assert(form_view(a@).subrange(0, a.len() as int) =~= form_view(a@));
    res
}

/// The clauses of `x` with `y` taken away, pushed onto `res`. The whole of
/// `y.outside` goes into one clause; `diff_clause` says what that covers.
fn push_diff(res: &mut Vec<Clause>, x: &Clause, y: &Clause)
    ensures
        form_view(final(res)@) == form_view(old(res)@) + diff_clause(x@, y@),
{
    let ghost start = form_view(res@);
    let ghost outs = y@.inside.map_values(
        |z: Primitive| ClauseV { inside: x@.inside, outside: x@.outside.push(z) },
    );
    let mut j: usize = 0;
    while j < y.inside.len()
        invariant
            j <= y.inside.len(),
            outs == y@.inside.map_values(
                |z: Primitive| ClauseV { inside: x@.inside, outside: x@.outside.push(z) },
            ),
            form_view(res@) == start + outs.subrange(0, j as int),
        decreases y.inside.len() - j,
    {
        let mut single: Vec<Primitive> = Vec::new();
        single.push(y.inside[j]);
        let c = x.duplicate();
        let c = Clause { inside: c.inside, outside: vec_union(&x.outside, &single) };
        proof {
            assert(single@ =~= seq![y@.inside[j as int]]);
            assert(c@.outside =~= x@.outside.push(y@.inside[j as int]));
            assert(c@ == outs[j as int]);
        }
        let ghost before = res@;
        res.push(c);
        j += 1;
        proof {
            lemma_form_view_push(before, c);
            assert(outs.subrange(0, j as int) =~= outs.subrange(0, j - 1).push(c@));
        }
        assert(form_view(res@) =~= start + outs.subrange(0, j as int));
    }
    assert(outs.subrange(0, y.inside.len() as int) =~= outs);
    if y.outside.len() > 0 {
        let c = Clause { inside: vec_union(&x.inside, &y.outside), outside: x.duplicate().outside };
        let ghost before = res@;
        res.push(c);
        proof {
            lemma_form_view_push(before, c);
        }
    }
    assert(form_view(res@) =~= start + diff_clause(x@, y@));
}

/// Every clause of `acc`, in order, with `y` taken away.
fn subtract_clause(acc: &Vec<Clause>, y: &Clause) -> (r: Vec<Clause>)
    ensures
        form_view(r@) == diff_step(form_view(acc@), y@),
{
    let mut res: Vec<Clause> = Vec::new();
    let mut i: usize = 0;
    while i < acc.len()
        invariant
            i <= acc.len(),
            form_view(res@) == diff_step(form_view(acc@).subrange(0, i as int), y@),
        decreases acc.len() - i,
    {
        proof {
            let s = form_view(acc@).subrange(0, i + 1);
            assert(s.drop_last() =~= form_view(acc@).subrange(0, i as int));
            assert(s.last() == acc@[i as int]@);
        }
        push_diff(&mut res, &acc[i], y);
        i += 1;
    }
    assert(form_view(acc@).subrange(0, acc.len() as int) =~= form_view(acc@));
    res
}

/// `a` with the clauses of `b` taken away one after the other.
fn subtract_forms(a: Vec<Clause>, b: &Vec<Clause>) -> (r: Vec<Clause>)
    ensures
        form_view(r@) == diff_all(form_view(a@), form_view(b@)),
{
    let mut res = a;
    let mut j: usize = 0;
    assert(form_view(b@).subrange(0, b.len() as int) =~= form_view(b@));
    while j < b.len()
        invariant
            j <= b.len(),
            diff_all(form_view(res@), form_view(b@).subrange(j as int, b.len() as int))
                == diff_all(form_view(a@), form_view(b@)),
        decreases b.len() - j,
    {
        proof {
            let s = form_view(b@).subrange(j as int, b.len() as int);
            assert(s.drop_first() =~= form_view(b@).subrange(j + 1, b.len() as int));
            assert(s[0] == b@[j as int]@);
        }
        res = subtract_clause(&res, &b[j]);
        j += 1;
    }
    assert(form_view(b@).subrange(b.len() as int, b.len() as int) =~= Seq::<ClauseV>::empty());
    res
}

proof fn lemma_form_view_push(s: Seq<Clause>, c: Clause)
    ensures
        form_view(s.push(c)) == form_view(s).push(c@),
{
    assert(form_view(s.push(c)) =~= form_view(s).push(c@));
}

} // verus!
