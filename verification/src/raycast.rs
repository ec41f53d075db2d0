//! Ray/isosurface intersection by windowed marching: per-source
//! activation intervals along the ray, sorted by entry, bound which
//! sources can contribute at each sample point.

use vstd::prelude::*;
use crate::fixed::{SCALE, THRESHOLD, MARCH_STEP, MAX_SOURCES, MAX_COORD, sdiv, div_trunc, isqrt};
use crate::geom::{Vec3, in_range, dot, norm_sq, spec_normalize};
use crate::metaball::{
    Metaball, MetaballShape, influence_one, total_influence, lemma_influence_one_bounds,
};

verus! {

/// Largest admitted magnitude of a ray origin coordinate.
pub const RAY_RANGE: i64 = 10000000;

/// An origin and a direction; the direction need not be unit length (it
/// is scaled internally) but must not be zero.
#[derive(Clone, Copy, PartialEq, Eq, Structural, Debug)]
pub struct Ray {
    pub origin: Vec3,
    pub dir: Vec3,
}

/// One source's activation: the ray parameter at which the ray enters
/// the source's unit support sphere, clamped to zero behind the origin.
#[derive(Clone, Copy, PartialEq, Eq, Structural, Debug)]
pub struct Activation {
    pub enter: i64,
    pub ball: Metaball,
}

/// The fixed-point unit direction of a nonzero vector.
pub open spec fn unit_dir(d: Vec3) -> Vec3 {
    spec_normalize(d)->Some_0
}

/// The point at ray parameter `t` along unit direction `u` from `o`.
pub open spec fn ray_point(o: Vec3, u: Vec3, t: int) -> Vec3 {
    Vec3 {
        x: (o.x + sdiv(u.x * t, SCALE as int)) as i64,
        y: (o.y + sdiv(u.y * t, SCALE as int)) as i64,
        z: (o.z + sdiv(u.z * t, SCALE as int)) as i64,
    }
}

/// The summed influence of an activation list's sources at `p`.
pub open spec fn events_influence(es: Seq<Activation>, p: Vec3) -> int
    decreases es.len(),
{
    if es.len() == 0 {
        0
    } else {
        events_influence(es.drop_last(), p) + influence_one(es.last().ball, p)
    }
}

/// The activation list is ordered by entry parameter.
pub open spec fn sorted_by_enter(es: Seq<Activation>) -> bool {
    forall|i: int, j: int| 0 <= i < j < es.len() ==> es[i].enter <= es[j].enter
}

/// Every activation's fields lie in the marcher's working ranges.
pub open spec fn events_bounded(es: Seq<Activation>) -> bool {
    forall|k: int|
        0 <= k < es.len() ==> {
            &&& 0 <= (#[trigger] es[k]).enter <= 40000000
            &&& in_range(es[k].ball.pos, MAX_COORD as int)
        }
}

/// The activation of one source along the ray from `o` in unit direction
/// `u`, by ray/sphere intersection against the source's unit support
/// sphere: nothing where the ray misses the sphere or exits it behind
/// the origin; else the entry parameter, clamped to zero.
pub open spec fn source_entry(b: Metaball, o: Vec3, u: Vec3) -> Option<Activation> {
    let oc = Vec3 { x: (b.pos.x - o.x) as i64, y: (b.pos.y - o.y) as i64, z: (b.pos.z - o.z) as i64 };
    let tc = sdiv(dot(oc, u), SCALE as int);
    let disc = SCALE * SCALE - norm_sq(oc) + tc * tc;
    if disc < 0 {
        Option::None
    } else {
        let sq = crate::fixed::sqrt_floor(disc as nat) as int;
        if tc + sq < 0 {
            Option::None
        } else {
            let enter = if tc - sq < 0 {
                0
            } else {
                tc - sq
            };
            Option::Some(Activation { enter: enter as i64, ball: b })
        }
    }
}

/// The activations of all sources the ray meets, in source order.
pub open spec fn spec_entries(s: Seq<Metaball>, o: Vec3, u: Vec3) -> Seq<Activation>
    decreases s.len(),
{
    if s.len() == 0 {
        Seq::empty()
    } else {
        spec_entries(s.drop_last(), o, u) + match source_entry(s.last(), o, u) {
            Option::Some(e) => seq![e],
            Option::None => Seq::empty(),
        }
    }
}

/// The position of the least entry parameter in `[k, len)`, seeded with
/// candidate `m`; ties keep the earlier position.
pub open spec fn sel_min_idx(es: Seq<Activation>, k: int, m: int) -> int
    decreases es.len() - k,
{
    if k < 0 || k >= es.len() {
        m
    } else if es[k].enter < es[m].enter {
        sel_min_idx(es, k + 1, k)
    } else {
        sel_min_idx(es, k + 1, m)
    }
}

/// `sel_min_idx` always answers with a position of the list.
proof fn lemma_sel_min_idx_in_range(es: Seq<Activation>, k: int, m: int)
    requires
        0 <= m < es.len(),
    ensures
        0 <= sel_min_idx(es, k, m) < es.len(),
    decreases es.len() - k,
{
    if 0 <= k < es.len() {
        if es[k].enter < es[m].enter {
            lemma_sel_min_idx_in_range(es, k + 1, k);
        } else {
            lemma_sel_min_idx_in_range(es, k + 1, m);
        }
    }
}

/// Selection sort from position `i` on: swap the least remaining entry
/// into place and continue.
pub open spec fn sel_sort_from(es: Seq<Activation>, i: int) -> Seq<Activation>
    decreases es.len() - i,
    via sel_sort_from_decreases
{
    if i < 0 || i >= es.len() {
        es
    } else {
        let m = sel_min_idx(es, i + 1, i);
        sel_sort_from(es.update(i, es[m]).update(m, es[i]), i + 1)
    }
}

#[via_fn]
proof fn sel_sort_from_decreases(es: Seq<Activation>, i: int) {
    if 0 <= i < es.len() {
        lemma_sel_min_idx_in_range(es, i + 1, i);
    }
}

/// The activation list ordered by entry parameter, as the sorter builds it.
pub open spec fn sel_sort(es: Seq<Activation>) -> Seq<Activation> {
    sel_sort_from(es, 0)
}

/// The window's upper bound advanced over every activation already
/// entered at parameter `t`.
pub open spec fn advance_to(es: Seq<Activation>, to: int, t: int) -> int
    decreases es.len() - to,
{
    if 0 <= to < es.len() && es[to].enter <= t {
        advance_to(es, to + 1, t)
    } else {
        to
    }
}

/// The window's lower bound advanced past every activation whose support
/// the marcher has exited: one full support diameter beyond its entry.
pub open spec fn advance_from(es: Seq<Activation>, from: int, to: int, t: int) -> int
    decreases to - from,
{
    if 0 <= from < to <= es.len() && es[from].enter + 2 * SCALE < t {
        advance_from(es, from + 1, to, t)
    } else {
        from
    }
}

/// One marching pass over the sorted activations: admit newly entered
/// sources, step forward, sample the active window, report the sample on
/// a threshold crossing, else retire exited sources and continue until
/// the parameter passes the last activation by a support diameter.
pub open spec fn spec_march(
    es: Seq<Activation>,
    o: Vec3,
    u: Vec3,
    t: int,
    t_end: int,
    from: int,
    to: int,
) -> Option<Vec3>
    decreases t_end + MARCH_STEP - t,
{
    if t > t_end {
        Option::None
    } else {
        let to2 = advance_to(es, to, t);
        let t2 = t + MARCH_STEP;
        let p = ray_point(o, u, t2);
        if events_influence(es.subrange(from, to2), p) >= THRESHOLD {
            Option::Some(p)
        } else {
            spec_march(es, o, u, t2, t_end, advance_from(es, from, to2, t2), to2)
        }
    }
}

/// The whole intersection query: per-source activations, sorted by
/// entry, marched from the least entry to one support diameter past the
/// last; nothing where no source is ever entered.
pub open spec fn spec_raycast(s: Seq<Metaball>, ray: Ray) -> Option<Vec3> {
    let u = unit_dir(ray.dir);
    let es0 = spec_entries(s, ray.origin, u);
    if es0.len() == 0 {
        Option::None
    } else {
        let es = sel_sort(es0);
        spec_march(
            es,
            ray.origin,
            u,
            es[0].enter as int,
            es[es.len() - 1].enter + 2 * SCALE,
            0,
            0,
        )
    }
}

/// An activation list's influence is never negative.
pub proof fn lemma_events_nonneg(es: Seq<Activation>, p: Vec3)
    ensures
        0 <= events_influence(es, p),
    decreases es.len(),
{
    if es.len() > 0 {
        lemma_events_nonneg(es.drop_last(), p);
        lemma_influence_one_bounds(es.last().ball, p);
    }
}

/// Influence sums distribute over concatenation.
pub proof fn lemma_events_concat(a: Seq<Activation>, b: Seq<Activation>, p: Vec3)
    ensures
        events_influence(a + b, p) == events_influence(a, p) + events_influence(b, p),
    decreases b.len(),
{
    if b.len() == 0 {
        assert(a + b =~= a);
    } else {
        assert((a + b).drop_last() =~= a + b.drop_last());
        assert((a + b).last() == b.last());
        lemma_events_concat(a, b.drop_last(), p);
    }
}

/// A singleton list's influence is its source's influence.
proof fn lemma_events_single(e: Activation, p: Vec3)
    ensures
        events_influence(seq![e], p) == influence_one(e.ball, p),
{
    assert(seq![e].drop_last() =~= Seq::<Activation>::empty());
    assert(events_influence(Seq::<Activation>::empty(), p) == 0);
    assert(seq![e].last() == e);
}

/// A window's influence never exceeds the whole list's.
pub proof fn lemma_events_window(es: Seq<Activation>, i: int, j: int, p: Vec3)
    requires
        0 <= i <= j <= es.len(),
    ensures
        events_influence(es.subrange(i, j), p) <= events_influence(es, p),
{
    let a = es.subrange(0, i);
    let m = es.subrange(i, j);
    let b = es.subrange(j, es.len() as int);
    assert(es =~= a + m + b);
    lemma_events_concat(a + m, b, p);
    lemma_events_concat(a, m, p);
    lemma_events_nonneg(a, p);
    lemma_events_nonneg(b, p);
}

/// Swapping two entries leaves the list's influence unchanged.
proof fn lemma_events_swap(es: Seq<Activation>, i: int, j: int, p: Vec3)
    requires
        0 <= i <= j < es.len(),
    ensures
        events_influence(es.update(i, es[j]).update(j, es[i]), p) == events_influence(es, p),
{
    let sw = es.update(i, es[j]).update(j, es[i]);
    if i == j {
        assert(sw =~= es);
    } else {
        let a = es.subrange(0, i);
        let m1 = seq![es[i]];
        let mid = es.subrange(i + 1, j);
        let m2 = seq![es[j]];
        let tail = es.subrange(j + 1, es.len() as int);
        assert(es =~= a + m1 + mid + m2 + tail);
        assert(sw =~= a + m2 + mid + m1 + tail);
        lemma_events_concat(a + m1 + mid + m2, tail, p);
        lemma_events_concat(a + m1 + mid, m2, p);
        lemma_events_concat(a + m1, mid, p);
        lemma_events_concat(a, m1, p);
        lemma_events_concat(a + m2 + mid + m1, tail, p);
        lemma_events_concat(a + m2 + mid, m1, p);
        lemma_events_concat(a + m2, mid, p);
        lemma_events_concat(a, m2, p);
        lemma_events_single(es[i], p);
        lemma_events_single(es[j], p);
    }
}

/// Sorts the activation list by entry parameter in place (selection
/// sort); the sources' summed influence at every point is preserved.
fn sort_events(evs: &mut Vec<Activation>)
    requires
        events_bounded(old(evs)@),
    ensures
        final(evs)@ == sel_sort(old(evs)@),
        final(evs)@.len() == old(evs)@.len(),
        sorted_by_enter(final(evs)@),
        events_bounded(final(evs)@),
        forall|q: Vec3|
            events_influence(final(evs)@, q) == events_influence(old(evs)@, q),
{
    let n = evs.len();
    let ghost orig = evs@;
    let mut i: usize = 0;
    while i < n
        invariant
            i <= n,
            n == evs@.len(),
            events_bounded(evs@),
            sel_sort(orig) == sel_sort_from(evs@, i as int),
            forall|q: Vec3|
                #[trigger] events_influence(evs@, q) == events_influence(orig, q),
            forall|a: int, b: int| 0 <= a < b < i ==> evs@[a].enter <= evs@[b].enter,
            forall|a: int, b: int| 0 <= a < i <= b < n ==> evs@[a].enter <= evs@[b].enter,
        decreases n - i,
    {
        let mut m: usize = i;
        let mut k: usize = i + 1;
        while k < n
            invariant
                i <= m < k <= n,
                n == evs@.len(),
                sel_min_idx(evs@, i as int + 1, i as int) == sel_min_idx(
                    evs@,
                    k as int,
                    m as int,
                ),
                forall|t: int| i <= t < k ==> evs@[m as int].enter <= evs@[t].enter,
            decreases n - k,
        {
            if evs[k].enter < evs[m].enter {
                m = k;
            }
            k = k + 1;
        }
        proof {
            assert(m as int == sel_min_idx(evs@, i as int + 1, i as int));
        }
        let ghost before = evs@;
        let ei = evs[i];
        let em = evs[m];
        evs.set(i, em);
        evs.set(m, ei);
        proof {
            assert(evs@ =~= before.update(i as int, before[m as int]).update(
                m as int,
                before[i as int],
            ));
            assert(sel_sort_from(before, i as int) == sel_sort_from(evs@, i as int + 1));
            assert forall|q: Vec3|
                #[trigger] events_influence(evs@, q) == events_influence(orig, q) by {
                lemma_events_swap(before, i as int, m as int, q);
                assert(evs@ =~= before.update(i as int, before[m as int]).update(
                    m as int,
                    before[i as int],
                ));
            }
            assert(events_bounded(evs@));
        }
        i = i + 1;
    }
    proof {
        assert(sel_sort_from(evs@, n as int) == evs@);
    }
}

/// The summed influence of the activations in `[from, to)` at `p`.
fn window_influence(evs: &Vec<Activation>, from: usize, to: usize, p: &Vec3) -> (r: i64)
    requires
        from <= to <= evs@.len(),
        evs@.len() <= MAX_SOURCES,
        events_bounded(evs@),
        in_range(*p, crate::fixed::QUERY_RANGE as int),
    ensures
        r == events_influence(evs@.subrange(from as int, to as int), *p),
        r >= 0,
{
    let mut acc: i64 = 0;
    let mut k: usize = from;
    while k < to
        invariant
            from <= k <= to <= evs@.len(),
            evs@.len() <= MAX_SOURCES,
            events_bounded(evs@),
            in_range(*p, crate::fixed::QUERY_RANGE as int),
            acc == events_influence(evs@.subrange(from as int, k as int), *p),
            0 <= acc <= 1000 * (k - from),
        decreases to - k,
    {
        let b = evs[k].ball;
        let v = b.influence(p);
        proof {
            let pre = evs@.subrange(from as int, k as int);
            let post = evs@.subrange(from as int, k as int + 1);
            assert(post.drop_last() =~= pre);
            assert(post.last() == evs@[k as int]);
        }
        acc = acc + v;
        k = k + 1;
    }
    acc
}

/// A dot product of a vector within `11000000` and one within `1000`
/// stays within `33000000000`.
proof fn lemma_entry_dot_bound(a: Vec3, b: Vec3)
    requires
        in_range(a, 11000000),
        in_range(b, 1000),
    ensures
        -33000000000 <= dot(a, b) <= 33000000000,
{
    assert(-11000000000 <= a.x * b.x <= 11000000000) by (nonlinear_arith)
        requires
            -11000000 <= a.x <= 11000000,
            -1000 <= b.x <= 1000,
    ;
    assert(-11000000000 <= a.y * b.y <= 11000000000) by (nonlinear_arith)
        requires
            -11000000 <= a.y <= 11000000,
            -1000 <= b.y <= 1000,
    ;
    assert(-11000000000 <= a.z * b.z <= 11000000000) by (nonlinear_arith)
        requires
            -11000000 <= a.z <= 11000000,
            -1000 <= b.z <= 1000,
    ;
}

/// The exec point at ray parameter `t`.
fn point_at(o: &Vec3, u: &Vec3, t: i64) -> (r: Vec3)
    requires
        in_range(*o, RAY_RANGE as int),
        in_range(*u, SCALE as int),
        0 <= t <= 50000000,
    ensures
        r == ray_point(*o, *u, t as int),
        in_range(r, crate::fixed::QUERY_RANGE as int),
{
    proof {
        assert(-50000000000 <= u.x * t <= 50000000000) by (nonlinear_arith)
            requires
                -1000 <= u.x <= 1000,
                0 <= t <= 50000000,
        ;
        assert(-50000000000 <= u.y * t <= 50000000000) by (nonlinear_arith)
            requires
                -1000 <= u.y <= 1000,
                0 <= t <= 50000000,
        ;
        assert(-50000000000 <= u.z * t <= 50000000000) by (nonlinear_arith)
            requires
                -1000 <= u.z <= 1000,
                0 <= t <= 50000000,
        ;
    }
    let dx = div_trunc(u.x * t, SCALE);
    let dy = div_trunc(u.y * t, SCALE);
    let dz = div_trunc(u.z * t, SCALE);
    proof {
        crate::fixed::lemma_sdiv_bound((u.x * t) as int, 50000000, SCALE as int);
        crate::fixed::lemma_sdiv_bound((u.y * t) as int, 50000000, SCALE as int);
        crate::fixed::lemma_sdiv_bound((u.z * t) as int, 50000000, SCALE as int);
    }
    Vec3 { x: o.x + dx, y: o.y + dy, z: o.z + dz }
}

/// Finds the first isosurface crossing along `ray`, marching in steps of
/// `MARCH_STEP` with a sliding window of active sources.
///
/// A reported hit is sound: it lies on the marched ray at a nonnegative
/// parameter and its composite influence reaches the threshold.  With no
/// sources there is never a hit.  A miss is best-effort: a crossing
/// thinner than the marching step can be stepped over.
pub fn raycast(metas: &MetaballShape, ray: &Ray) -> (r: Option<Vec3>)
    requires
        metas.wf(),
        in_range(ray.origin, RAY_RANGE as int),
        in_range(ray.dir, MAX_COORD as int),
        norm_sq(ray.dir) >= 1,
    ensures
        r == spec_raycast(metas.points@, *ray),
        metas.points@.len() == 0 ==> r is None,
        r is Some ==> total_influence(metas.points@, r->Some_0) >= THRESHOLD,
        r is Some ==> exists|t: int|
            0 <= t && r->Some_0 == ray_point(ray.origin, unit_dir(ray.dir), t),
{
    let u = match ray.dir.normalize() {
        Option::Some(u) => u,
        Option::None => {
            proof {
                assert(false);
            }
            return Option::None;
        },
    };
    let n = metas.points.len();
    let mut evs: Vec<Activation> = Vec::new();
    let mut i: usize = 0;
    while i < n
        invariant
            i <= n,
            n == metas.points@.len(),
            n <= MAX_SOURCES,
            metas.wf(),
            in_range(ray.origin, RAY_RANGE as int),
            in_range(u, SCALE as int),
            u == unit_dir(ray.dir),
            evs@.len() <= i,
            events_bounded(evs@),
            evs@ == spec_entries(metas.points@.subrange(0, i as int), ray.origin, u),
            forall|q: Vec3|
                #[trigger] events_influence(evs@, q) <= total_influence(
                    metas.points@.subrange(0, i as int),
                    q,
                ),
        decreases n - i,
    {
        let b = metas.points[i];
        let oc = b.pos.sub(&ray.origin);
        proof {
            assert(oc == (Vec3 {
                x: (b.pos.x - ray.origin.x) as i64,
                y: (b.pos.y - ray.origin.y) as i64,
                z: (b.pos.z - ray.origin.z) as i64,
            }));
            lemma_entry_dot_bound(oc, u);
        }
        let tc_num = oc.dot(&u);
        let tc = div_trunc(tc_num, SCALE);
        proof {
            crate::fixed::lemma_sdiv_bound(tc_num as int, 33000000, SCALE as int);
            assert(0 <= tc * tc <= 1089000000000000) by (nonlinear_arith)
                requires
                    -33000000 <= tc <= 33000000,
            ;
        }
        let oc2 = oc.norm_sq();
        let tc2 = tc * tc;
        let disc = SCALE * SCALE - oc2 + tc2;
        let mut pushed = false;
        let ghost pre = evs@;
        if disc >= 0 {
            let sq64 = isqrt(disc as u64);
            proof {
                assert(sq64 * sq64 <= disc);
                assert(sq64 <= 34000000) by (nonlinear_arith)
                    requires
                        (sq64 as int) * (sq64 as int) <= 1089001000000000,
                ;
            }
            let sq = sq64 as i64;
            let exit_t = tc + sq;
            if exit_t >= 0 {
                let enter0 = tc - sq;
                let enter: i64 = if enter0 < 0 {
                    0
                } else {
                    enter0
                };
                evs.push(Activation { enter, ball: b });
                pushed = true;
                proof {
                    assert(evs@.drop_last() =~= pre);
                    assert(source_entry(b, ray.origin, u) == Option::Some(
                        Activation { enter, ball: b },
                    ));
                    assert(evs@ =~= pre + seq![Activation { enter, ball: b }]);
                }
            }
        }
        proof {
            let sub0 = metas.points@.subrange(0, i as int);
            let sub1 = metas.points@.subrange(0, i as int + 1);
            assert(sub1.drop_last() =~= sub0);
            assert(sub1.last() == metas.points@[i as int]);
            if !pushed {
                assert(source_entry(b, ray.origin, u) is None);
                assert(evs@ =~= pre + Seq::<Activation>::empty());
            }
            assert(evs@ == spec_entries(sub1, ray.origin, u));
            assert forall|q: Vec3|
                #[trigger] events_influence(evs@, q) <= total_influence(sub1, q) by {
                lemma_influence_one_bounds(metas.points@[i as int], q);
                if pushed {
                    assert(events_influence(evs@, q) == events_influence(pre, q) + influence_one(
                        b,
                        q,
                    ));
                }
            }
        }
        i = i + 1;
    }
    proof {
        assert(metas.points@.subrange(0, n as int) =~= metas.points@);
        assert(evs@ == spec_entries(metas.points@, ray.origin, u));
    }
    let ghost entries = evs@;
    if evs.len() == 0 {
        proof {
            assert(spec_raycast(metas.points@, *ray) is None);
        }
        return Option::None;
    }
    sort_events(&mut evs);
    let len = evs.len();
    let mut from: usize = 0;
    let mut to: usize = 0;
    let mut t: i64 = evs[0].enter;
    let t_end: i64 = evs[len - 1].enter + 2 * SCALE;
    proof {
        assert(evs@ == sel_sort(entries));
        assert(spec_raycast(metas.points@, *ray) == spec_march(
            evs@,
            ray.origin,
            u,
            t as int,
            t_end as int,
            0,
            0,
        ));
    }
    while t <= t_end
        invariant
            from <= to <= len,
            len == evs@.len(),
            len <= MAX_SOURCES,
            metas.wf(),
            events_bounded(evs@),
            in_range(ray.origin, RAY_RANGE as int),
            in_range(u, SCALE as int),
            u == unit_dir(ray.dir),
            0 <= t <= t_end + MARCH_STEP,
            0 <= t_end <= 40002000,
            spec_march(evs@, ray.origin, u, t as int, t_end as int, from as int, to as int)
                == spec_raycast(metas.points@, *ray),
            forall|q: Vec3|
                #[trigger] events_influence(evs@, q) <= total_influence(metas.points@, q),
        decreases t_end + MARCH_STEP - t,
    {
        let ghost t0 = t as int;
        let ghost from0 = from as int;
        let ghost to0 = to as int;
        let ghost to_goal = advance_to(evs@, to0, t0);
        while to < len && evs[to].enter <= t
            invariant
                from <= to <= len,
                len == evs@.len(),
                0 <= t,
                advance_to(evs@, to as int, t as int) == to_goal,
            decreases len - to,
        {
            to = to + 1;
        }
        proof {
            assert(to as int == to_goal);
        }
        t = t + MARCH_STEP;
        let p = point_at(&ray.origin, &u, t);
        let wi = window_influence(&evs, from, to, &p);
        if wi >= THRESHOLD {
            proof {
                assert(spec_march(evs@, ray.origin, u, t0, t_end as int, from0, to0)
                    == Option::Some(p));
                lemma_events_window(evs@, from as int, to as int, p);
                assert(total_influence(metas.points@, p) >= THRESHOLD);
                assert(p == ray_point(ray.origin, unit_dir(ray.dir), t as int));
            }
            return Option::Some(p);
        }
        let ghost from_goal = advance_from(evs@, from0, to as int, t as int);
        while from < to && evs[from].enter + 2 * SCALE < t
            invariant
                from <= to <= len,
                len == evs@.len(),
                events_bounded(evs@),
                advance_from(evs@, from as int, to as int, t as int) == from_goal,
            decreases to - from,
        {
            from = from + 1;
        }
        proof {
            assert(from as int == from_goal);
            assert(spec_march(evs@, ray.origin, u, t0, t_end as int, from0, to0) == spec_march(
                evs@,
                ray.origin,
                u,
                t as int,
                t_end as int,
                from as int,
                to as int,
            ));
        }
    }
    Option::None
}

} // verus!
