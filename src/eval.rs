use vstd::prelude::*;
use crate::clause::{
    all_in, clause_holds, form_holds, form_view, ids_below, leaf_clause, mentions, none_in,
    Clause, ClauseV, Point, Primitive,
};
use crate::semantics::{exact, single_out, theorem_canonical_equivalent, tree_holds};
use crate::tree::{canon, leaf, node, Interaction};

verus! {

/// A stretch `[enter, exit)` of ray parameters along which the ray is inside
/// a primitive.
#[derive(Clone, Copy, Debug, PartialEq, Eq, Structural)]
pub struct Span {
    pub enter: i64,
    pub exit: i64,
}

/// The first surface met along a ray: its parameter, and the primitive whose
/// boundary lies there (which gives the normal and the material).
#[derive(Clone, Copy, Debug, PartialEq, Eq, Structural)]
pub struct Hit {
    pub t: i64,
    pub prim: Primitive,
}

/// Why a ray could not be evaluated against a canonical form.
#[derive(Clone, Copy, Debug, PartialEq, Eq, Structural)]
pub enum EvalError {
    /// The table of spans has no entry for this primitive.
    UnknownPrimitive(Primitive),
    /// One of this primitive's spans exits before it enters.
    MalformedInterval(Primitive),
}

/// The spans of primitive `p` along the ray, from the table `hits`.
pub open spec fn spans_of(hits: Seq<Vec<Span>>, p: Primitive) -> Seq<Span> {
    hits[p.id as int]@
}

pub open spec fn span_has(s: Span, t: int) -> bool {
    s.enter <= t < s.exit
}

/// Some span of `ss` holds parameter `t`.
pub open spec fn in_spans(ss: Seq<Span>, t: int) -> bool {
    exists|i: int| 0 <= i < ss.len() && span_has(#[trigger] ss[i], t)
}

/// The point of the ray at parameter `t`, as the algebra sees it.
pub open spec fn point_at(hits: Seq<Vec<Span>>, t: int) -> Point {
    |p: Primitive| in_spans(spans_of(hits, p), t)
}

/// The point given by a table of memberships, indexed by primitive.
pub open spec fn member_point(m: Seq<bool>) -> Point {
    |p: Primitive| m[p.id as int]
}

/// The ray at parameter `t` lies in the solid of the canonical form.
pub open spec fn covered(form: Seq<ClauseV>, hits: Seq<Vec<Span>>, t: int) -> bool {
    form_holds(form, point_at(hits, t))
}

/// The ray crosses the surface of the solid at `t`: it is inside on one side
/// of `t` and outside on the other.
pub open spec fn is_boundary(form: Seq<ClauseV>, hits: Seq<Vec<Span>>, t: int) -> bool {
    covered(form, hits, t) != covered(form, hits, t - 1)
}

pub open spec fn spans_ok(ss: Seq<Span>) -> bool {
    forall|i: int| 0 <= i < ss.len() ==> #[trigger] ss[i].enter <= ss[i].exit
}

/// The table has well-formed spans for `p`.
pub open spec fn prim_ok(hits: Seq<Vec<Span>>, p: Primitive) -> bool {
    p.id < hits.len() && spans_ok(spans_of(hits, p))
}

/// The table has well-formed spans for every primitive that `form` mentions.
pub open spec fn well_formed(form: Seq<ClauseV>, hits: Seq<Vec<Span>>) -> bool {
    forall|p: Primitive| #[trigger] mentions(form, p) ==> prim_ok(hits, p)
}

/// Some span of `ss` enters or exits at `t`.
pub open spec fn is_endpoint(ss: Seq<Span>, t: int) -> bool {
    exists|i: int| 0 <= i < ss.len() && (#[trigger] ss[i].enter == t || ss[i].exit == t)
}

/// Clause `k` of the form mentions `p`, on either side.
pub open spec fn clause_mentions(form: Seq<ClauseV>, k: int, p: Primitive) -> bool {
    form[k].inside.contains(p) || form[k].outside.contains(p)
}

/// The surface at `t` belongs to `p`: the ray enters or leaves `p` at `t`,
/// and at `t` it enters or leaves the region of some clause that mentions
/// `p`.
pub open spec fn attributable(form: Seq<ClauseV>, hits: Seq<Vec<Span>>, p: Primitive, t: int) -> bool {
    &&& in_spans(spans_of(hits, p), t) != in_spans(spans_of(hits, p), t - 1)
    &&& exists|k: int|
        0 <= k < form.len() && #[trigger] clause_mentions(form, k, p) && clause_holds(
            form[k],
            point_at(hits, t),
        ) != clause_holds(form[k], point_at(hits, t - 1))
}

/// Two points that agree on every primitive of a clause are both in its
/// region or both outside it.
proof fn lemma_clause_holds_agree(c: ClauseV, pt1: Point, pt2: Point)
    requires
        forall|i: int| 0 <= i < c.inside.len() ==> pt1(#[trigger] c.inside[i]) == pt2(c.inside[i]),
        forall|i: int| 0 <= i < c.outside.len() ==> pt1(#[trigger] c.outside[i]) == pt2(
            c.outside[i],
        ),
    ensures
        clause_holds(c, pt1) == clause_holds(c, pt2),
{
    assert(all_in(c.inside, pt1) == all_in(c.inside, pt2));
    assert(none_in(c.outside, pt1) == none_in(c.outside, pt2));
}

/// Two points that agree on every primitive a form mentions are both in its
/// solid or both outside it.
pub proof fn lemma_form_holds_agree(cs: Seq<ClauseV>, pt1: Point, pt2: Point)
    requires
        forall|p: Primitive| #[trigger] mentions(cs, p) ==> pt1(p) == pt2(p),
    ensures
        form_holds(cs, pt1) == form_holds(cs, pt2),
{
    assert forall|k: int| 0 <= k < cs.len() implies clause_holds(#[trigger] cs[k], pt1)
        == clause_holds(cs[k], pt2) by {
        let c = cs[k];
        assert forall|i: int| 0 <= i < c.inside.len() implies pt1(#[trigger] c.inside[i]) == pt2(
            c.inside[i],
        ) by {
            assert(c.inside.contains(c.inside[i]));
            assert(mentions(cs, c.inside[i]));
        }
        assert forall|i: int| 0 <= i < c.outside.len() implies pt1(#[trigger] c.outside[i])
            == pt2(c.outside[i]) by {
            assert(c.outside.contains(c.outside[i]));
            assert(mentions(cs, c.outside[i]));
        }
        lemma_clause_holds_agree(c, pt1, pt2);
    }
    if form_holds(cs, pt1) {
        let k = choose|k: int| 0 <= k < cs.len() && clause_holds(#[trigger] cs[k], pt1);
        assert(clause_holds(cs[k], pt2));
    }
    if form_holds(cs, pt2) {
        let k = choose|k: int| 0 <= k < cs.len() && clause_holds(#[trigger] cs[k], pt2);
        assert(clause_holds(cs[k], pt1));
    }
}

/// The ray can only enter or leave a primitive at an endpoint of one of its
/// spans.
pub proof fn lemma_change_at_endpoint(ss: Seq<Span>, t: int)
    requires
        in_spans(ss, t) != in_spans(ss, t - 1),
    ensures
        is_endpoint(ss, t),
{
    if !is_endpoint(ss, t) {
        if in_spans(ss, t) {
            let i = choose|i: int| 0 <= i < ss.len() && span_has(#[trigger] ss[i], t);
            assert(span_has(ss[i], t - 1));
        }
        if in_spans(ss, t - 1) {
            let i = choose|i: int| 0 <= i < ss.len() && span_has(#[trigger] ss[i], t - 1);
            assert(span_has(ss[i], t));
        }
    }
}

/// Wherever the ray crosses the solid's surface, the surface belongs to some
/// primitive that the form mentions.
pub proof fn lemma_boundary_attributable(form: Seq<ClauseV>, hits: Seq<Vec<Span>>, t: int)
    requires
        is_boundary(form, hits, t),
    ensures
        exists|p: Primitive| #[trigger] mentions(form, p) && attributable(form, hits, p, t),
{
    let pt1 = point_at(hits, t);
    let pt2 = point_at(hits, t - 1);
    // some clause changes
    if forall|k: int| 0 <= k < form.len() ==> clause_holds(#[trigger] form[k], pt1)
        == clause_holds(form[k], pt2) {
        if form_holds(form, pt1) {
            let k = choose|k: int| 0 <= k < form.len() && clause_holds(#[trigger] form[k], pt1);
            assert(clause_holds(form[k], pt2));
        }
        if form_holds(form, pt2) {
            let k = choose|k: int| 0 <= k < form.len() && clause_holds(#[trigger] form[k], pt2);
            assert(clause_holds(form[k], pt1));
        }
    }
    let k = choose|k: int| 0 <= k < form.len() && clause_holds(#[trigger] form[k], pt1)
        != clause_holds(form[k], pt2);
    let c = form[k];
    // and so does one of its primitives
    if forall|i: int| 0 <= i < c.inside.len() ==> pt1(#[trigger] c.inside[i]) == pt2(c.inside[i]) {
        if forall|i: int| 0 <= i < c.outside.len() ==> pt1(#[trigger] c.outside[i]) == pt2(
            c.outside[i],
        ) {
            lemma_clause_holds_agree(c, pt1, pt2);
        }
        let i = choose|i: int| 0 <= i < c.outside.len() && pt1(#[trigger] c.outside[i]) != pt2(
            c.outside[i],
        );
        let p = c.outside[i];
        assert(c.outside.contains(p));
        assert(clause_mentions(form, k, p));
        assert(mentions(form, p));
        assert(attributable(form, hits, p, t));
    } else {
        let i = choose|i: int| 0 <= i < c.inside.len() && pt1(#[trigger] c.inside[i]) != pt2(
            c.inside[i],
        );
        let p = c.inside[i];
        assert(c.inside.contains(p));
        assert(clause_mentions(form, k, p));
        assert(mentions(form, p));
        assert(attributable(form, hits, p, t));
    }
}

fn in_spans_exec(ss: &Vec<Span>, t: i64) -> (r: bool)
    ensures
        r == in_spans(ss@, t as int),
{
    let mut i: usize = 0;
    while i < ss.len()
        invariant
            i <= ss.len(),
            forall|j: int| 0 <= j < i ==> !span_has(#[trigger] ss@[j], t as int),
        decreases ss.len() - i,
    {
        if ss[i].enter <= t && t < ss[i].exit {
            assert(span_has(ss@[i as int], t as int));
            return true;
        }
        i += 1;
    }
    false
}

/// For each primitive of the table, whether the ray at parameter `t` is
/// inside it.
pub fn membership(hits: &Vec<Vec<Span>>, t: i64) -> (r: Vec<bool>)
    ensures
        r@.len() == hits@.len(),
        forall|id: int| 0 <= id < r@.len() ==> r@[id] == in_spans(#[trigger] hits@[id]@, t as int),
{
    let mut r: Vec<bool> = Vec::new();
    let mut i: usize = 0;
    while i < hits.len()
        invariant
            i <= hits.len(),
            r@.len() == i,
            forall|id: int| 0 <= id < i ==> r@[id] == in_spans(#[trigger] hits@[id]@, t as int),
        decreases hits.len() - i,
    {
        let b = in_spans_exec(&hits[i], t);
        r.push(b);
        i += 1;
    }
    r
}

/// Whether the point with the given memberships lies in the clause.
pub fn clause_contains(c: &Clause, member: &Vec<bool>) -> (r: bool)
    requires
        forall|i: int| 0 <= i < c.inside@.len() ==> (#[trigger] c.inside@[i]).id < member@.len(),
        forall|i: int| 0 <= i < c.outside@.len() ==> (#[trigger] c.outside@[i]).id
            < member@.len(),
    ensures
        r == clause_holds(c@, member_point(member@)),
{
    let ghost pt = member_point(member@);
    let mut i: usize = 0;
    while i < c.inside.len()
        invariant
            i <= c.inside.len(),
            pt == member_point(member@),
            forall|j: int| 0 <= j < c.inside@.len() ==> (#[trigger] c.inside@[j]).id
                < member@.len(),
            forall|j: int| 0 <= j < i ==> pt(#[trigger] c.inside@[j]),
        decreases c.inside.len() - i,
    {
        if !member[c.inside[i].id] {
            assert(!pt(c@.inside[i as int]));
            return false;
        }
        i += 1;
    }
    let mut j: usize = 0;
    while j < c.outside.len()
        invariant
            j <= c.outside.len(),
            pt == member_point(member@),
            all_in(c@.inside, pt),
            forall|k: int| 0 <= k < c.outside@.len() ==> (#[trigger] c.outside@[k]).id
                < member@.len(),
            forall|k: int| 0 <= k < j ==> !pt(#[trigger] c.outside@[k]),
        decreases c.outside.len() - j,
    {
        if member[c.outside[j].id] {
            assert(pt(c@.outside[j as int]));
            return false;
        }
        j += 1;
    }
    true
}

/// Whether the point with the given memberships lies in the solid of the
/// canonical form.
pub fn form_contains(form: &Vec<Clause>, member: &Vec<bool>) -> (r: bool)
    requires
        ids_below(form_view(form@), member@.len()),
    ensures
        r == form_holds(form_view(form@), member_point(member@)),
{
    let ghost fv = form_view(form@);
    let mut k: usize = 0;
    while k < form.len()
        invariant
            k <= form.len(),
            fv == form_view(form@),
            ids_below(fv, member@.len()),
            forall|q: int| 0 <= q < k ==> !clause_holds(#[trigger] fv[q], member_point(member@)),
        decreases form.len() - k,
    {
        let c = &form[k];
        proof {
            assert(fv[k as int] == c@);
            assert forall|i: int| 0 <= i < c.inside@.len() implies (#[trigger] c.inside@[i]).id
                < member@.len() by {
                assert(fv[k as int].inside.contains(c.inside@[i]));
                assert(mentions(fv, c.inside@[i]));
            }
            assert forall|i: int| 0 <= i < c.outside@.len() implies (#[trigger] c.outside@[i]).id
                < member@.len() by {
                assert(fv[k as int].outside.contains(c.outside@[i]));
                assert(mentions(fv, c.outside@[i]));
            }
        }
        if clause_contains(c, member) {
            return true;
        }
        k += 1;
    }
    false
}

/// Whether the ray at parameter `t` lies in the solid of the canonical form.
pub fn covered_at(form: &Vec<Clause>, hits: &Vec<Vec<Span>>, t: i64) -> (r: bool)
    requires
        well_formed(form_view(form@), hits@),
    ensures
        r == covered(form_view(form@), hits@, t as int),
{
    let m = membership(hits, t);
    proof {
        let fv = form_view(form@);
        assert forall|p: Primitive| #[trigger] mentions(fv, p) implies p.id < m@.len() by {
            assert(prim_ok(hits@, p));
        }
        assert forall|p: Primitive| #[trigger] mentions(fv, p) implies member_point(m@)(p)
            == point_at(hits@, t as int)(p) by {
            assert(prim_ok(hits@, p));
            assert(m@[p.id as int] == in_spans(hits@[p.id as int]@, t as int));
        }
        lemma_form_holds_agree(fv, member_point(m@), point_at(hits@, t as int));
    }
    form_contains(form, &m)
}

fn spans_ok_exec(ss: &Vec<Span>) -> (r: bool)
    ensures
        r == spans_ok(ss@),
{
    let mut i: usize = 0;
    while i < ss.len()
        invariant
            i <= ss.len(),
            forall|j: int| 0 <= j < i ==> #[trigger] ss@[j].enter <= ss@[j].exit,
        decreases ss.len() - i,
    {
        if ss[i].enter > ss[i].exit {
            return false;
        }
        i += 1;
    }
    true
}

/// Every primitive of `list` has well-formed spans in the table.
pub open spec fn list_ok(hits: Seq<Vec<Span>>, list: Seq<Primitive>) -> bool {
    forall|j: int| 0 <= j < list.len() ==> prim_ok(hits, #[trigger] list[j])
}

/// The error, if any, that the table gives for the primitives of `list`.
fn check_list(list: &Vec<Primitive>, hits: &Vec<Vec<Span>>) -> (r: Result<(), EvalError>)
    ensures
        r is Ok <==> list_ok(hits@, list@),
        r matches Err(EvalError::UnknownPrimitive(p)) ==> list@.contains(p) && p.id
            >= hits@.len(),
        r matches Err(EvalError::MalformedInterval(p)) ==> list@.contains(p) && p.id
            < hits@.len() && !spans_ok(spans_of(hits@, p)),
{
    let mut j: usize = 0;
    while j < list.len()
        invariant
            j <= list.len(),
            forall|q: int| 0 <= q < j ==> prim_ok(hits@, #[trigger] list@[q]),
        decreases list.len() - j,
    {
        let p = list[j];
        assert(list@.contains(p));
        if p.id >= hits.len() {
            return Err(EvalError::UnknownPrimitive(p));
        }
        if !spans_ok_exec(&hits[p.id]) {
            return Err(EvalError::MalformedInterval(p));
        }
        j += 1;
    }
    Ok(())
}

/// The error, if any, that the table gives for the primitives of the form.
fn validate(form: &Vec<Clause>, hits: &Vec<Vec<Span>>) -> (r: Result<(), EvalError>)
    ensures
        r is Ok <==> well_formed(form_view(form@), hits@),
        r matches Err(EvalError::UnknownPrimitive(p)) ==> mentions(form_view(form@), p) && p.id
            >= hits@.len(),
        r matches Err(EvalError::MalformedInterval(p)) ==> mentions(form_view(form@), p) && p.id
            < hits@.len() && !spans_ok(spans_of(hits@, p)),
{
    let ghost fv = form_view(form@);
    let mut k: usize = 0;
    while k < form.len()
        invariant
            k <= form.len(),
            fv == form_view(form@),
            forall|q: int|
                0 <= q < k ==> list_ok(hits@, (#[trigger] fv[q]).inside) && list_ok(
                    hits@,
                    fv[q].outside,
                ),
        decreases form.len() - k,
    {
        assert(fv[k as int] == form@[k as int]@);
        let a = check_list(&form[k].inside, hits);
        if a.is_err() {
            proof {
                if let Err(EvalError::UnknownPrimitive(p)) = a {
                    assert(fv[k as int].inside.contains(p));
                    assert(mentions(fv, p) && !prim_ok(hits@, p));
                }
                if let Err(EvalError::MalformedInterval(p)) = a {
                    assert(fv[k as int].inside.contains(p));
                    assert(mentions(fv, p) && !prim_ok(hits@, p));
                }
            }
            return a;
        }
        let b = check_list(&form[k].outside, hits);
        if b.is_err() {
            proof {
                if let Err(EvalError::UnknownPrimitive(p)) = b {
                    assert(fv[k as int].outside.contains(p));
                    assert(mentions(fv, p) && !prim_ok(hits@, p));
                }
                if let Err(EvalError::MalformedInterval(p)) = b {
                    assert(fv[k as int].outside.contains(p));
                    assert(mentions(fv, p) && !prim_ok(hits@, p));
                }
            }
            return b;
        }
        k += 1;
    }
    proof {
        assert forall|p: Primitive| #[trigger] mentions(fv, p) implies prim_ok(hits@, p) by {
            let q = choose|q: int|
                0 <= q < fv.len() && ((#[trigger] fv[q]).inside.contains(p)
                    || fv[q].outside.contains(p));
            if fv[q].inside.contains(p) {
                let j = choose|j: int| 0 <= j < fv[q].inside.len() && fv[q].inside[j] == p;
                assert(prim_ok(hits@, fv[q].inside[j]));
            } else {
                let j = choose|j: int| 0 <= j < fv[q].outside.len() && fv[q].outside[j] == p;
                assert(prim_ok(hits@, fv[q].outside[j]));
            }
        }
    }
    Ok(())
}

/// A candidate at parameter `t` on `p` is worth keeping: beyond `t_min`, on
/// the surface of the solid, and that surface belongs to `p`.
pub open spec fn relevant(
    form: Seq<ClauseV>,
    hits: Seq<Vec<Span>>,
    t_min: i64,
    p: Primitive,
    t: int,
) -> bool {
    t > t_min && is_boundary(form, hits, t) && attributable(form, hits, p, t)
}

/// `best` is at or before parameter `t`.
pub open spec fn covers(best: Option<Hit>, t: int) -> bool {
    best matches Some(h) && h.t <= t
}

/// `r` is at or before wherever `best` is.
pub open spec fn improves(r: Option<Hit>, best: Option<Hit>) -> bool {
    best matches Some(h) ==> (r matches Some(h2) && h2.t <= h.t)
}

/// A hit that the search may report: a surface point beyond `t_min`, at an
/// endpoint of a span of a primitive that the form mentions.
pub open spec fn valid_hit(
    form: Seq<ClauseV>,
    hits: Seq<Vec<Span>>,
    t_min: i64,
    best: Option<Hit>,
) -> bool {
    best matches Some(h) ==> relevant(form, hits, t_min, h.prim, h.t as int) && mentions(
        form,
        h.prim,
    )
        && is_endpoint(spans_of(hits, h.prim), h.t as int)
}

/// `best` is at or before every relevant endpoint of the spans of `p`.
pub open spec fn done(
    form: Seq<ClauseV>,
    hits: Seq<Vec<Span>>,
    t_min: i64,
    best: Option<Hit>,
    p: Primitive,
) -> bool {
    forall|i: int|
        0 <= i < spans_of(hits, p).len() ==> (relevant(
            form,
            hits,
            t_min,
            p,
            (#[trigger] spans_of(hits, p)[i]).enter as int,
        ) ==> covers(best, spans_of(hits, p)[i].enter as int)) && (relevant(
            form,
            hits,
            t_min,
            p,
            spans_of(hits, p)[i].exit as int,
        ) ==> covers(best, spans_of(hits, p)[i].exit as int))
}

proof fn lemma_done_mono(
    form: Seq<ClauseV>,
    hits: Seq<Vec<Span>>,
    t_min: i64,
    best: Option<Hit>,
    r: Option<Hit>,
    p: Primitive,
)
    requires
        done(form, hits, t_min, best, p),
        improves(r, best),
    ensures
        done(form, hits, t_min, r, p),
{
}

/// Whether the ray enters or leaves `p` at `t`, and with it the region of a
/// clause that mentions `p`.
fn attributable_at(form: &Vec<Clause>, hits: &Vec<Vec<Span>>, p: Primitive, t: i64) -> (r: bool)
    requires
        well_formed(form_view(form@), hits@),
        p.id < hits@.len(),
        t > i64::MIN,
    ensures
        r == attributable(form_view(form@), hits@, p, t as int),
{
    let ghost fv = form_view(form@);
    let ss = &hits[p.id];
    if in_spans_exec(ss, t) == in_spans_exec(ss, t - 1) {
        return false;
    }
    let now = membership(hits, t);
    let before = membership(hits, t - 1);
    let mut k: usize = 0;
    while k < form.len()
        invariant
            fv == form_view(form@),
            well_formed(fv, hits@),
            k <= form.len(),
            t > i64::MIN,
            in_spans(spans_of(hits@, p), t as int) != in_spans(spans_of(hits@, p), t - 1),
            now@.len() == hits@.len(),
            forall|id: int|
                0 <= id < now@.len() ==> now@[id] == in_spans(#[trigger] hits@[id]@, t as int),
            before@.len() == hits@.len(),
            forall|id: int|
                0 <= id < before@.len() ==> before@[id] == in_spans(#[trigger] hits@[id]@, t - 1),
            forall|q: int|
                0 <= q < k ==> !(#[trigger] clause_mentions(fv, q, p) && clause_holds(
                    fv[q],
                    point_at(hits@, t as int),
                ) != clause_holds(fv[q], point_at(hits@, t - 1))),
        decreases form.len() - k,
    {
        let c = &form[k];
        proof {
            assert(fv[k as int] == c@);
        }
        if list_has(&c.inside, p) || list_has(&c.outside, p) {
            proof {
                lemma_clause_at(fv, hits@, k as int, now@, t as int);
                lemma_clause_at(fv, hits@, k as int, before@, t - 1);
                assert(c.inside@ == fv[k as int].inside && c.outside@ == fv[k as int].outside);
                assert forall|i: int| 0 <= i < c.inside@.len() implies (#[trigger] c.inside@[i]).id
                    < now@.len() by {
                    assert(c.inside@[i] == fv[k as int].inside[i]);
                }
                assert forall|i: int| 0 <= i < c.outside@.len() implies (
                #[trigger] c.outside@[i]).id < now@.len() by {
                    assert(c.outside@[i] == fv[k as int].outside[i]);
                }
            }
            if clause_contains(c, &now) != clause_contains(c, &before) {
                assert(clause_mentions(fv, k as int, p));
                return true;
            }
        }
        k += 1;
    }
    false
}

/// A table of memberships at `t` gives each clause of the form the same
/// value as the ray at `t` does.
proof fn lemma_clause_at(fv: Seq<ClauseV>, hits: Seq<Vec<Span>>, k: int, m: Seq<bool>, t: int)
    requires
        well_formed(fv, hits),
        0 <= k < fv.len(),
        m.len() == hits.len(),
        forall|id: int| 0 <= id < m.len() ==> m[id] == in_spans(#[trigger] hits[id]@, t),
    ensures
        forall|i: int| 0 <= i < fv[k].inside.len() ==> (#[trigger] fv[k].inside[i]).id < m.len(),
        forall|i: int| 0 <= i < fv[k].outside.len() ==> (#[trigger] fv[k].outside[i]).id < m.len(),
        clause_holds(fv[k], member_point(m)) == clause_holds(fv[k], point_at(hits, t)),
{
    let c = fv[k];
    assert forall|i: int| 0 <= i < c.inside.len() implies (#[trigger] c.inside[i]).id < m.len()
        && member_point(m)(c.inside[i]) == point_at(hits, t)(c.inside[i]) by {
        assert(c.inside.contains(c.inside[i]));
        assert(mentions(fv, c.inside[i]));
        assert(prim_ok(hits, c.inside[i]));
    }
    assert forall|i: int| 0 <= i < c.outside.len() implies (#[trigger] c.outside[i]).id < m.len()
        && member_point(m)(c.outside[i]) == point_at(hits, t)(c.outside[i]) by {
        assert(c.outside.contains(c.outside[i]));
        assert(mentions(fv, c.outside[i]));
        assert(prim_ok(hits, c.outside[i]));
    }
    lemma_clause_holds_agree(c, member_point(m), point_at(hits, t));
}

fn list_has(list: &Vec<Primitive>, p: Primitive) -> (r: bool)
    ensures
        r == list@.contains(p),
{
    let mut i: usize = 0;
    while i < list.len()
        invariant
            i <= list.len(),
            forall|j: int| 0 <= j < i ==> list@[j] != p,
        decreases list.len() - i,
    {
        if list[i] == p {
            assert(list@[i as int] == p);
            return true;
        }
        i += 1;
    }
    false
}

/// `best`, or the hit at `t` on `p` if that is a relevant candidate before it.
fn consider(
    form: &Vec<Clause>,
    hits: &Vec<Vec<Span>>,
    t_min: i64,
    best: Option<Hit>,
    p: Primitive,
    t: i64,
) -> (r: Option<Hit>)
    requires
        well_formed(form_view(form@), hits@),
        mentions(form_view(form@), p),
        is_endpoint(spans_of(hits@, p), t as int),
        valid_hit(form_view(form@), hits@, t_min, best),
    ensures
        valid_hit(form_view(form@), hits@, t_min, r),
        improves(r, best),
        relevant(form_view(form@), hits@, t_min, p, t as int) ==> covers(r, t as int),
{
    if t <= t_min {
        return best;
    }
    if let Some(h) = best {
        if h.t <= t {
            return best;
        }
    }
    proof {
        assert(prim_ok(hits@, p));
    }
    let now = covered_at(form, hits, t);
    let before = covered_at(form, hits, t - 1);
    if now != before && attributable_at(form, hits, p, t) {
        Some(Hit { t, prim: p })
    } else {
        best
    }
}

/// Considers every endpoint of the spans of `p`.
fn scan_prim(
    form: &Vec<Clause>,
    hits: &Vec<Vec<Span>>,
    t_min: i64,
    best: Option<Hit>,
    p: Primitive,
) -> (r: Option<Hit>)
    requires
        well_formed(form_view(form@), hits@),
        mentions(form_view(form@), p),
        valid_hit(form_view(form@), hits@, t_min, best),
    ensures
        valid_hit(form_view(form@), hits@, t_min, r),
        improves(r, best),
        done(form_view(form@), hits@, t_min, r, p),
{
    let ghost fv = form_view(form@);
    proof {
        assert(prim_ok(hits@, p));
    }
    let ss = &hits[p.id];
    let mut b = best;
    let mut i: usize = 0;
    while i < ss.len()
        invariant
            fv == form_view(form@),
            well_formed(fv, hits@),
            mentions(fv, p),
            p.id < hits@.len(),
            ss@ == spans_of(hits@, p),
            i <= ss@.len(),
            valid_hit(fv, hits@, t_min, b),
            improves(b, best),
            forall|j: int|
                0 <= j < i ==> (relevant(fv, hits@, t_min, p, (#[trigger] ss@[j]).enter as int)
                    ==> covers(b, ss@[j].enter as int)) && (relevant(
                    fv,
                    hits@,
                    t_min,
                    p,
                    ss@[j].exit as int,
                ) ==> covers(b, ss@[j].exit as int)),
        decreases ss.len() - i,
    {
        let s = ss[i];
        assert(is_endpoint(ss@, s.enter as int) && is_endpoint(ss@, s.exit as int)) by {
            assert(ss@[i as int] == s);
        }
        let b1 = consider(form, hits, t_min, b, p, s.enter);
        let b2 = consider(form, hits, t_min, b1, p, s.exit);
        b = b2;
        i += 1;
    }
    b
}

/// Considers every endpoint of the spans of the primitives of `list`.
fn scan_list(
    form: &Vec<Clause>,
    hits: &Vec<Vec<Span>>,
    t_min: i64,
    best: Option<Hit>,
    list: &Vec<Primitive>,
) -> (r: Option<Hit>)
    requires
        well_formed(form_view(form@), hits@),
        forall|j: int| 0 <= j < list@.len() ==> mentions(form_view(form@), #[trigger] list@[j]),
        valid_hit(form_view(form@), hits@, t_min, best),
    ensures
        valid_hit(form_view(form@), hits@, t_min, r),
        improves(r, best),
        forall|j: int|
            0 <= j < list@.len() ==> done(form_view(form@), hits@, t_min, r, #[trigger] list@[j]),
{
    let ghost fv = form_view(form@);
    let mut b = best;
    let mut j: usize = 0;
    while j < list.len()
        invariant
            fv == form_view(form@),
            well_formed(fv, hits@),
            forall|q: int| 0 <= q < list@.len() ==> mentions(fv, #[trigger] list@[q]),
            j <= list@.len(),
            valid_hit(fv, hits@, t_min, b),
            improves(b, best),
            forall|q: int| 0 <= q < j ==> done(fv, hits@, t_min, b, #[trigger] list@[q]),
        decreases list.len() - j,
    {
        let nb = scan_prim(form, hits, t_min, b, list[j]);
        proof {
            assert forall|q: int| 0 <= q < j implies done(fv, hits@, t_min, nb, #[trigger] list@[q]) by {
                lemma_done_mono(fv, hits@, t_min, b, nb, list@[q]);
            }
        }
        b = nb;
        j += 1;
    }
    b
}

/// The first point beyond `t_min` where the ray crosses the surface of the
/// solid of the canonical form `form`. `hits[p.id]` holds the spans of
/// primitive `p` along the ray.
///
/// Fails when the table lacks a primitive that the form mentions, or holds a
/// span of one that exits before it enters. Otherwise reports the least
/// surface parameter beyond `t_min`, or `None` when the ray never crosses the
/// surface beyond `t_min`.
///
/// The reported primitive is one whose boundary makes that surface: the ray
/// enters or leaves it there, and with it the region of a clause that
/// mentions it. A primitive that merely has a span endpoint at the same
/// parameter, hidden inside another solid, is not reported.
///
/// The surface can only lie at an endpoint of a span of a primitive that the
/// form mentions, so those endpoints are the candidates; each is tested by
/// comparing the form's membership just before and at it. Overlapping
/// clauses are thus merged rather than counted twice.
pub fn first_hit(form: &Vec<Clause>, hits: &Vec<Vec<Span>>, t_min: i64) -> (r: Result<
    Option<Hit>,
    EvalError,
>)
    ensures
        r is Ok <==> well_formed(form_view(form@), hits@),
        r matches Err(EvalError::UnknownPrimitive(p)) ==> mentions(form_view(form@), p) && p.id
            >= hits@.len(),
        r matches Err(EvalError::MalformedInterval(p)) ==> mentions(form_view(form@), p) && p.id
            < hits@.len() && !spans_ok(spans_of(hits@, p)),
        r matches Ok(None) ==> forall|t: int|
            t > t_min ==> !#[trigger] is_boundary(form_view(form@), hits@, t),
        r matches Ok(Some(h)) ==> {
            &&& h.t > t_min
            &&& is_boundary(form_view(form@), hits@, h.t as int)
            &&& mentions(form_view(form@), h.prim)
            &&& is_endpoint(spans_of(hits@, h.prim), h.t as int)
            &&& attributable(form_view(form@), hits@, h.prim, h.t as int)
            &&& forall|t: int|
                t_min < t < h.t ==> !#[trigger] is_boundary(form_view(form@), hits@, t)
        },
{
    let checked = validate(form, hits);
    if let Err(e) = checked {
        return Err(e);
    }
    let ghost fv = form_view(form@);
    let mut best: Option<Hit> = None;
    let mut k: usize = 0;
    while k < form.len()
        invariant
            fv == form_view(form@),
            well_formed(fv, hits@),
            k <= form.len(),
            valid_hit(fv, hits@, t_min, best),
            forall|p: Primitive|
                (exists|q: int|
                    0 <= q < k && ((#[trigger] fv[q]).inside.contains(p) || fv[q].outside.contains(
                        p,
                    ))) ==> #[trigger] done(fv, hits@, t_min, best, p),
        decreases form.len() - k,
    {
        let c = &form[k];
        proof {
            assert(fv[k as int] == c@);
            assert forall|j: int| 0 <= j < c.inside@.len() implies mentions(
                fv,
                #[trigger] c.inside@[j],
            ) by {
                assert(fv[k as int].inside.contains(c.inside@[j]));
            }
            assert forall|j: int| 0 <= j < c.outside@.len() implies mentions(
                fv,
                #[trigger] c.outside@[j],
            ) by {
                assert(fv[k as int].outside.contains(c.outside@[j]));
            }
        }
        let b1 = scan_list(form, hits, t_min, best, &c.inside);
        let b2 = scan_list(form, hits, t_min, b1, &c.outside);
        proof {
            assert forall|p: Primitive|
                (exists|q: int|
                    0 <= q < k + 1 && ((#[trigger] fv[q]).inside.contains(p)
                        || fv[q].outside.contains(p))) implies #[trigger] done(
                fv,
                hits@,
                t_min,
                b2,
                p,
            ) by {
                let q = choose|q: int|
                    0 <= q < k + 1 && ((#[trigger] fv[q]).inside.contains(p)
                        || fv[q].outside.contains(p));
                if q < k {
                    lemma_done_mono(fv, hits@, t_min, best, b1, p);
                    lemma_done_mono(fv, hits@, t_min, b1, b2, p);
                } else if fv[q].inside.contains(p) {
                    let j = choose|j: int| 0 <= j < c.inside@.len() && c.inside@[j] == p;
                    assert(done(fv, hits@, t_min, b1, c.inside@[j]));
                    lemma_done_mono(fv, hits@, t_min, b1, b2, p);
                } else {
                    let j = choose|j: int| 0 <= j < c.outside@.len() && c.outside@[j] == p;
                    assert(done(fv, hits@, t_min, b2, c.outside@[j]));
                }
            }
        }
        best = b2;
        k += 1;
    }
    proof {
        assert forall|t: int| t > t_min && is_boundary(fv, hits@, t) implies covers(best, t) by {
            lemma_boundary_attributable(fv, hits@, t);
            let p = choose|p: Primitive|
                #[trigger] mentions(fv, p) && attributable(fv, hits@, p, t);
            lemma_change_at_endpoint(spans_of(hits@, p), t);
            let q = choose|q: int|
                0 <= q < fv.len() && ((#[trigger] fv[q]).inside.contains(p)
                    || fv[q].outside.contains(p));
            assert(done(fv, hits@, t_min, best, p));
            let i = choose|i: int|
                0 <= i < spans_of(hits@, p).len() && (#[trigger] spans_of(hits@, p)[i].enter
                    == t || spans_of(hits@, p)[i].exit == t);
            assert(relevant(fv, hits@, t_min, p, t));
        }
        match best {
            None => {
                assert forall|t: int| t > t_min implies !#[trigger] is_boundary(fv, hits@, t) by {
                    if is_boundary(fv, hits@, t) {
                        assert(covers(best, t));
                    }
                }
            },
            Some(h) => {
                assert forall|t: int| t_min < t < h.t implies !#[trigger] is_boundary(
                    fv,
                    hits@,
                    t,
                ) by {
                    if is_boundary(fv, hits@, t) {
                        assert(covers(best, t));
                    }
                }
            },
        }
    }
    Ok(best)
}

/// A primitive whose only span along the ray is `[s.enter, s.exit)`, alone
/// in its canonical form: the first surface beyond any `t_min` before
/// `s.enter` is at `s.enter`.
pub proof fn law_single_span_first_hit(p: Primitive, hits: Seq<Vec<Span>>, s: Span, t_min: i64)
    requires
        p.id < hits.len(),
        spans_of(hits, p) == seq![s],
        s.enter < s.exit,
        t_min < s.enter,
    ensures
        is_boundary(canon(leaf(p)), hits, s.enter as int),
        forall|t: int| t_min < t < s.enter ==> !#[trigger] is_boundary(canon(leaf(p)), hits, t),
{
    let form = canon(leaf(p));
    assert(exact(leaf(p)));
    assert forall|t: int| #[trigger] covered(form, hits, t) == span_has(s, t) by {
        theorem_canonical_equivalent(leaf(p), point_at(hits, t));
        let ss = spans_of(hits, p);
        if span_has(s, t) {
            assert(span_has(ss[0], t));
        }
        if in_spans(ss, t) {
            let i = choose|i: int| 0 <= i < ss.len() && span_has(#[trigger] ss[i], t);
            assert(i == 0);
        }
    }
    assert(covered(form, hits, s.enter as int));
    assert(!covered(form, hits, s.enter - 1));
    assert forall|t: int| t_min < t < s.enter implies !#[trigger] is_boundary(form, hits, t) by {
        assert(!covered(form, hits, t));
        assert(!covered(form, hits, t - 1));
    }
}

/// A ray that is inside `b` wherever it is inside `a` never meets the solid
/// `a \ b`: no parameter is in it, and it has no surface along the ray.
pub proof fn law_subtraction_miss(a: Primitive, b: Primitive, hits: Seq<Vec<Span>>)
    requires
        forall|t: int|
            #[trigger] in_spans(spans_of(hits, a), t) ==> in_spans(spans_of(hits, b), t),
    ensures
        forall|t: int|
            !#[trigger] covered(canon(node(Interaction::Diff, leaf(a), leaf(b))), hits, t),
        forall|t: int|
            !#[trigger] is_boundary(canon(node(Interaction::Diff, leaf(a), leaf(b))), hits, t),
{
    let tr = node(Interaction::Diff, leaf(a), leaf(b));
    assert(canon(leaf(b)) == seq![leaf_clause(b)]);
    assert forall|k: int| 0 <= k < canon(leaf(b)).len() implies #[trigger] canon(
        leaf(b),
    )[k].outside.len() <= 1 by {
        assert(k == 0);
    }
    assert(single_out(canon(leaf(b))));
    assert(exact(leaf(a)) && exact(leaf(b)));
    assert(exact(tr));
    assert forall|t: int| !#[trigger] covered(canon(tr), hits, t) by {
        theorem_canonical_equivalent(tr, point_at(hits, t));
        assert(tree_holds(leaf(a), point_at(hits, t)) == in_spans(spans_of(hits, a), t));
        assert(tree_holds(leaf(b), point_at(hits, t)) == in_spans(spans_of(hits, b), t));
        assert(!tree_holds(tr, point_at(hits, t)));
    }
    assert forall|t: int| !#[trigger] is_boundary(canon(tr), hits, t) by {
        assert(!covered(canon(tr), hits, t));
        assert(!covered(canon(tr), hits, t - 1));
    }
}

} // verus!
