use vstd::prelude::*;

verus! {

/// A handle on a primitive solid. Primitives are identified by an index into
/// whatever table the scene keeps of them; the handle itself is never mutated
/// and may appear in any number of clauses.
#[derive(Clone, Copy, Debug, PartialEq, Eq, Structural)]
pub struct Primitive {
    pub id: usize,
}

/// A conjunctive region: inside every primitive of `inside`, outside every
/// primitive of `outside`.
#[derive(Debug)]
pub struct Clause {
    pub inside: Vec<Primitive>,
    pub outside: Vec<Primitive>,
}

/// The mathematical content of a clause.
pub ghost struct ClauseV {
    pub inside: Seq<Primitive>,
    pub outside: Seq<Primitive>,
}

impl View for Clause {
    type V = ClauseV;

    open spec fn view(&self) -> ClauseV {
        ClauseV { inside: self.inside@, outside: self.outside@ }
    }
}

/// The view of a canonical form: the clauses it is the union of.
pub open spec fn form_view(v: Seq<Clause>) -> Seq<ClauseV> {
    v.map_values(|c: Clause| c@)
}

/// A point, as far as the algebra can see it: which primitives contain it.
pub type Point = spec_fn(Primitive) -> bool;

/// Every primitive of `s` contains the point.
pub open spec fn all_in(s: Seq<Primitive>, pt: Point) -> bool {
    forall|i: int| 0 <= i < s.len() ==> #[trigger] pt(s[i])
}

/// No primitive of `s` contains the point.
pub open spec fn none_in(s: Seq<Primitive>, pt: Point) -> bool {
    forall|i: int| 0 <= i < s.len() ==> !#[trigger] pt(s[i])
}

/// The point lies in the region of clause `c`.
pub open spec fn clause_holds(c: ClauseV, pt: Point) -> bool {
    all_in(c.inside, pt) && none_in(c.outside, pt)
}

/// The point lies in the union of the clauses of `cs`.
pub open spec fn form_holds(cs: Seq<ClauseV>, pt: Point) -> bool {
    exists|k: int| 0 <= k < cs.len() && clause_holds(#[trigger] cs[k], pt)
}

/// The primitive occurs in some clause of `cs`, on either side.
pub open spec fn mentions(cs: Seq<ClauseV>, p: Primitive) -> bool {
    exists|k: int|
        0 <= k < cs.len() && ((#[trigger] cs[k]).inside.contains(p) || cs[k].outside.contains(p))
}

/// Every primitive that `cs` mentions has an index below `n`.
pub open spec fn ids_below(cs: Seq<ClauseV>, n: nat) -> bool {
    forall|p: Primitive| #[trigger] mentions(cs, p) ==> p.id < n
}

/// The clause of a single primitive: inside it, outside nothing.
pub open spec fn leaf_clause(p: Primitive) -> ClauseV {
    ClauseV { inside: seq![p], outside: Seq::empty() }
}

/// The clause `(x.inside + y.inside, x.outside + y.outside)`: the
/// intersection of the two regions.
pub open spec fn meet(x: ClauseV, y: ClauseV) -> ClauseV {
    ClauseV { inside: x.inside + y.inside, outside: x.outside + y.outside }
}

/// The clauses that remain of `x` once `y` is taken away: one clause
/// `(x.inside, x.outside + [z])` for each `z` of `y.inside`, then, when
/// `y.outside` is not empty, the single clause
/// `(x.inside + y.outside, x.outside)`.
///
/// The second part asks for the point to be inside every primitive of
/// `y.outside` at once. When `y.outside` has one element this is exactly the
/// set difference; with more it is a smaller region than the difference,
/// which would need one clause per element.
pub open spec fn diff_clause(x: ClauseV, y: ClauseV) -> Seq<ClauseV> {
    y.inside.map_values(|z: Primitive| ClauseV { inside: x.inside, outside: x.outside.push(z) })
        + if y.outside.len() > 0 {
        seq![ClauseV { inside: x.inside + y.outside, outside: x.outside }]
    } else {
        Seq::<ClauseV>::empty()
    }
}

/// Each clause of `acc`, in order, with `y` taken away.
pub open spec fn diff_step(acc: Seq<ClauseV>, y: ClauseV) -> Seq<ClauseV>
    decreases acc.len(),
{
    if acc.len() == 0 {
        Seq::empty()
    } else {
        diff_step(acc.drop_last(), y) + diff_clause(acc.last(), y)
    }
}

/// `acc` with every clause of `ys` taken away, one after the other.
pub open spec fn diff_all(acc: Seq<ClauseV>, ys: Seq<ClauseV>) -> Seq<ClauseV>
    decreases ys.len(),
{
    if ys.len() == 0 {
        acc
    } else {
        diff_all(diff_step(acc, ys[0]), ys.drop_first())
    }
}

/// `meet(x, y)` for each clause `y` of `ys`, in order.
pub open spec fn meet_each(x: ClauseV, ys: Seq<ClauseV>) -> Seq<ClauseV> {
    ys.map_values(|y: ClauseV| meet(x, y))
}

/// The cartesian product of two forms: for each clause `x` of `xs`, in order,
/// the clauses `meet(x, y)` for each `y` of `ys`.
pub open spec fn product(xs: Seq<ClauseV>, ys: Seq<ClauseV>) -> Seq<ClauseV>
    decreases xs.len(),
{
    if xs.len() == 0 {
        Seq::empty()
    } else {
        product(xs.drop_last(), ys) + meet_each(xs.last(), ys)
    }
}

impl Primitive {
    /// The clause of this primitive alone.
    pub fn extract(self) -> (r: Clause)
        ensures
            r@ == leaf_clause(self),
    {
        let mut inside: Vec<Primitive> = Vec::new();
        inside.push(self);
        let r = Clause { inside, outside: Vec::new() };
        assert(r@.inside =~= seq![self]);
        r
    }
}

/// The elements of `a` followed by those of `b`.
pub fn vec_union(a: &Vec<Primitive>, b: &Vec<Primitive>) -> (r: Vec<Primitive>)
    ensures
        r@ == a@ + b@,
{
    let mut r: Vec<Primitive> = Vec::new();
    let mut i: usize = 0;
    while i < a.len()
        invariant
            i <= a.len(),
            r@ == a@.subrange(0, i as int),
        decreases a.len() - i,
    {
        r.push(a[i]);
        i += 1;
        assert(r@ =~= a@.subrange(0, i as int));
    }
    let mut j: usize = 0;
    while j < b.len()
        invariant
            j <= b.len(),
            r@ == a@ + b@.subrange(0, j as int),
        decreases b.len() - j,
    {
        r.push(b[j]);
        j += 1;
        assert(r@ =~= a@ + b@.subrange(0, j as int));
    }
    assert(b@.subrange(0, b@.len() as int) =~= b@);
    r
}

impl Clause {
    /// A copy of this clause.
    pub fn duplicate(&self) -> (r: Clause)
        ensures
            r@ == self@,
    {
        let e: Vec<Primitive> = Vec::new();
        let r = Clause { inside: vec_union(&self.inside, &e), outside: vec_union(&self.outside, &e) };
        assert(r@.inside =~= self@.inside);
        assert(r@.outside =~= self@.outside);
        r
    }
}

} // verus!
