use pytrace::clause::{Clause, Primitive};
use pytrace::eval::{clause_contains, covered_at, first_hit, form_contains, membership, EvalError, Hit, Span};
use pytrace::ray::{Ray, Vec3};
use pytrace::tree::InterTree;

fn prim(id: usize) -> Primitive {
    Primitive { id }
}

fn leaf(id: usize) -> InterTree {
    InterTree::Item(prim(id))
}

fn span(enter: i64, exit: i64) -> Span {
    Span { enter, exit }
}

/// A sphere as centre and radius.
struct Sphere {
    c: [f64; 3],
    r: f64,
}

impl Sphere {
    fn contains(&self, p: [f64; 3]) -> bool {
        let d = [p[0] - self.c[0], p[1] - self.c[1], p[2] - self.c[2]];
        d[0] * d[0] + d[1] * d[1] + d[2] * d[2] <= self.r * self.r
    }

    /// The span of parameters along `orig + t * dir` inside the sphere.
    fn spans(&self, orig: [f64; 3], dir: [f64; 3]) -> Vec<Span> {
        let oc = [orig[0] - self.c[0], orig[1] - self.c[1], orig[2] - self.c[2]];
        let a = dir[0] * dir[0] + dir[1] * dir[1] + dir[2] * dir[2];
        let b = 2.0 * (oc[0] * dir[0] + oc[1] * dir[1] + oc[2] * dir[2]);
        let c = oc[0] * oc[0] + oc[1] * oc[1] + oc[2] * oc[2] - self.r * self.r;
        let disc = b * b - 4.0 * a * c;
        if disc <= 0.0 {
            return vec![];
        }
        let s = disc.sqrt();
        let t0 = (-b - s) / (2.0 * a);
        let t1 = (-b + s) / (2.0 * a);
        vec![span(t0.round() as i64, t1.round() as i64)]
    }
}

#[test]
fn ray_round_trip_single_interval() {
    let form = leaf(0).canonical();
    let hits = vec![vec![span(1, 3)]];
    let r = first_hit(&form, &hits, 0);
    assert_eq!(r, Ok(Some(Hit { t: 1, prim: prim(0) })));
}

#[test]
fn ray_past_entry_reports_exit() {
    let form = leaf(0).canonical();
    let hits = vec![vec![span(1, 3)]];
    assert_eq!(first_hit(&form, &hits, 1), Ok(Some(Hit { t: 3, prim: prim(0) })));
    assert_eq!(first_hit(&form, &hits, 3), Ok(None));
}

#[test]
fn subtraction_miss() {
    let form = leaf(0).diff(leaf(1)).canonical();
    let hits = vec![vec![span(2, 5)], vec![span(0, 10)]];
    assert_eq!(first_hit(&form, &hits, -100), Ok(None));
    for t in -3..12 {
        assert!(!covered_at(&form, &hits, t));
    }
}

#[test]
fn empty_table_entry_misses() {
    let form = leaf(0).canonical();
    let hits = vec![vec![]];
    assert_eq!(first_hit(&form, &hits, 0), Ok(None));
}

#[test]
fn difference_exposes_subtrahend_surface() {
    // [0, 10) without [2, 4): the surface after t = 1 is at 2, on primitive 1
    let form = leaf(0).diff(leaf(1)).canonical();
    let hits = vec![vec![span(0, 10)], vec![span(2, 4)]];
    assert_eq!(first_hit(&form, &hits, 1), Ok(Some(Hit { t: 2, prim: prim(1) })));
    assert_eq!(first_hit(&form, &hits, 2), Ok(Some(Hit { t: 4, prim: prim(1) })));
}

#[test]
fn union_of_overlapping_spans_merges() {
    // [1, 5) | [3, 8): no surface at 3 or 5
    let form = leaf(0).union(leaf(1)).canonical();
    let hits = vec![vec![span(1, 5)], vec![span(3, 8)]];
    assert_eq!(first_hit(&form, &hits, 1), Ok(Some(Hit { t: 8, prim: prim(1) })));
}

#[test]
fn intersection_starts_at_later_entry() {
    let form = leaf(0).inter(leaf(1)).canonical();
    let hits = vec![vec![span(1, 5)], vec![span(3, 8)]];
    assert_eq!(first_hit(&form, &hits, 0), Ok(Some(Hit { t: 3, prim: prim(1) })));
}

#[test]
fn unknown_primitive_is_an_error() {
    let form = leaf(0).union(leaf(4)).canonical();
    let hits = vec![vec![span(1, 2)]];
    assert_eq!(first_hit(&form, &hits, 0), Err(EvalError::UnknownPrimitive(prim(4))));
}

#[test]
fn malformed_interval_is_an_error() {
    let form = leaf(0).diff(leaf(1)).canonical();
    let hits = vec![vec![span(1, 2)], vec![span(5, 3)]];
    assert_eq!(first_hit(&form, &hits, 0), Err(EvalError::MalformedInterval(prim(1))));
}

#[test]
fn degenerate_clause_is_whole_space_minus_outside() {
    let form = vec![Clause { inside: vec![], outside: vec![prim(0)] }];
    let hits = vec![vec![span(4, 6)]];
    assert_eq!(first_hit(&form, &hits, 0), Ok(Some(Hit { t: 4, prim: prim(0) })));
    assert!(covered_at(&form, &hits, 0));
    assert!(!covered_at(&form, &hits, 5));
}

#[test]
fn membership_table() {
    let hits = vec![vec![span(0, 2), span(5, 7)], vec![span(1, 6)], vec![]];
    assert_eq!(membership(&hits, 1), vec![true, true, false]);
    assert_eq!(membership(&hits, 2), vec![false, true, false]);
    assert_eq!(membership(&hits, 6), vec![true, false, false]);
}

#[test]
fn clause_membership() {
    let c = Clause { inside: vec![prim(0), prim(1)], outside: vec![prim(2)] };
    assert!(clause_contains(&c, &vec![true, true, false]));
    assert!(!clause_contains(&c, &vec![true, false, false]));
    assert!(!clause_contains(&c, &vec![true, true, true]));
}

#[test]
fn end_to_end_two_spheres() {
    let s1 = Sphere { c: [0.0, 0.0, 0.0], r: 2.0 };
    let s2 = Sphere { c: [1.0, 0.0, 0.0], r: 2.0 };
    let orig = [-5.0, 0.0, 0.0];
    let dir = [1.0, 0.0, 0.0];
    let hits = vec![s1.spans(orig, dir), s2.spans(orig, dir)];
    assert_eq!(hits, vec![vec![span(3, 7)], vec![span(4, 8)]]);
    let form = leaf(0).diff(leaf(1)).canonical();
    assert_eq!(form.len(), 1);
    assert_eq!(form[0].inside, vec![prim(0)]);
    assert_eq!(form[0].outside, vec![prim(1)]);
    let h = first_hit(&form, &hits, 0).unwrap().unwrap();
    assert_eq!(h, Hit { t: 3, prim: prim(0) });
    let ray = Ray::new(Vec3 { x: -5, y: 0, z: 0 }, Vec3 { x: 1, y: 0, z: 0 });
    let p = ray.project(h.t);
    assert_eq!(p, Vec3 { x: -2, y: 0, z: 0 });
    assert!(!s2.contains([p.x as f64, p.y as f64, p.z as f64]));
}

#[test]
fn difference_multi_out_against_spheres() {
    let a = Sphere { c: [0.0, 0.0, 0.0], r: 3.0 };
    let c = Sphere { c: [0.0, 0.0, 0.0], r: 2.0 };
    let d1 = Sphere { c: [1.0, 0.0, 0.0], r: 1.0 };
    let d2 = Sphere { c: [-1.0, 0.0, 0.0], r: 1.0 };
    let form = leaf(0).diff(leaf(1).diff(leaf(2).union(leaf(3)))).canonical();
    let mut missed = 0;
    for i in -8..=8 {
        for j in -8..=8 {
            let p = [i as f64 * 0.5, j as f64 * 0.5, 0.0];
            let m = vec![a.contains(p), c.contains(p), d1.contains(p), d2.contains(p)];
            let truth = m[0] && !(m[1] && !(m[2] || m[3]));
            let got = form_contains(&form, &m);
            // every point the clauses cover is in the true difference
            assert!(!got || truth);
            if truth && !got {
                missed += 1;
            }
        }
    }
    // inside d1 only: in the true solid, but the folded clause needs both
    let p = [1.0, 0.0, 0.0];
    let m = vec![a.contains(p), c.contains(p), d1.contains(p), d2.contains(p)];
    assert_eq!(m, vec![true, true, true, false]);
    assert!(!form_contains(&form, &m));
    assert!(missed > 0);
}

#[test]
fn ray_new_and_project() {
    let r = Ray::new(Vec3 { x: 1, y: 2, z: 3 }, Vec3 { x: -1, y: 0, z: 2 });
    assert_eq!(r.orig, Vec3 { x: 1, y: 2, z: 3 });
    assert_eq!(r.dir, Vec3 { x: -1, y: 0, z: 2 });
    assert_eq!(r.project(4), Vec3 { x: -3, y: 2, z: 11 });
    assert_eq!(r.project(0), Vec3 { x: 1, y: 2, z: 3 });
}

#[test]
fn project_near_the_limit() {
    let r = Ray::new(Vec3 { x: i64::MIN, y: 0, z: 0 }, Vec3 { x: 2, y: 0, z: 0 });
    assert_eq!(r.project(i64::MAX / 2).x, -2);
}

#[test]
fn tie_reports_the_visible_primitive() {
    // ({1},{2}) | ({0},{}): primitive 1 lies wholly inside 2, so its entry at 3
    // is hidden and the surface at 3 belongs to primitive 0
    let form = leaf(1).diff(leaf(2)).union(leaf(0)).canonical();
    let hits = vec![vec![span(3, 7)], vec![span(3, 5)], vec![span(0, 10)]];
    assert_eq!(first_hit(&form, &hits, 0), Ok(Some(Hit { t: 3, prim: prim(0) })));
}

#[test]
fn tie_between_visible_primitives_reports_one_of_them() {
    // 0 | 1 entering together at 2
    let form = leaf(0).union(leaf(1)).canonical();
    let hits = vec![vec![span(2, 4)], vec![span(2, 6)]];
    let h = first_hit(&form, &hits, 0).unwrap().unwrap();
    assert_eq!(h.t, 2);
    assert!(h.prim == prim(0) || h.prim == prim(1));
}
