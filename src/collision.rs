//! Pairwise collision detection and elastic response.
//!
//! Detection reads an immutable snapshot of the particle set and may run on
//! many threads; its output is a list of correction records, which a single
//! serial pass sums per particle and applies.
use vstd::prelude::*;
use iter_tools::Itertools;
use rayon::iter::{IndexedParallelIterator, IntoParallelRefIterator, ParallelIterator};
use crate::fixed::{Vec2, in_range, tdiv, adiv, div_toward_zero, div_away_from_zero, sqrt_floor, floor_sqrt, LIMIT};
use crate::particle::{Particle, Velocity, all_wf};

verus! {

/// The elasticity coefficient is the reciprocal of this divisor (0.2).
pub const ELASTICITY_DIVISOR: i128 = 5;

/// The response to one overlapping, approaching pair `(a, b)`: `impulse` is
/// taken from `a`'s velocity and given to `b`'s; `correction` is added to
/// `a`'s position and taken from `b`'s.
#[derive(Clone, Copy, Debug, PartialEq, Eq)]
pub struct Contact {
    pub impulse: Vec2,
    pub correction: Vec2,
}

/// A change to one particle: add `position` to its position and `velocity`
/// to its velocity.
#[derive(Clone, Copy, Debug, PartialEq, Eq)]
pub struct Correction {
    pub id: usize,
    pub position: Vec2,
    pub velocity: Vec2,
}

/// Component-wise negation.
pub open spec fn neg(v: Vec2) -> Vec2 {
    Vec2 { x: (-v.x) as i64, y: (-v.y) as i64 }
}

pub open spec fn offset_x(a: Particle, b: Particle) -> int {
    b.position.x - a.position.x
}

pub open spec fn offset_y(a: Particle, b: Particle) -> int {
    b.position.y - a.position.y
}

/// Squared distance between the centres.
pub open spec fn dist2(a: Particle, b: Particle) -> int {
    offset_x(a, b) * offset_x(a, b) + offset_y(a, b) * offset_y(a, b)
}

/// Sum of the radii: the distance below which the circles overlap.
pub open spec fn reach(a: Particle, b: Particle) -> int {
    a.atom.radius + b.atom.radius
}

/// Closing speed scaled by the distance: `(v_b - v_a) . (p_b - p_a)`;
/// negative while the particles approach each other.
pub open spec fn closing(a: Particle, b: Particle) -> int {
    (b.velocity.0.x - a.velocity.0.x) * offset_x(a, b) + (b.velocity.0.y - a.velocity.0.y)
        * offset_y(a, b)
}

/// Impulse component along offset component `d`: the normal's component
/// times the elasticity times the magnitude of the closing speed.
pub open spec fn impulse_part(d: int, s: int, q: int) -> int {
    tdiv(d * (-s), ELASTICITY_DIVISOR * q)
}

/// Position correction component for `a`: half the overlap, along the
/// normal, away from `b`, rounded away from zero so that no overlap is
/// left uncorrected.
pub open spec fn correction_part(d: int, m: int, dist: int) -> int {
    adiv(-d * (m - dist), 2 * dist)
}

pub open spec fn relative_x(a: Particle, b: Particle) -> int {
    b.velocity.0.x - a.velocity.0.x
}

pub open spec fn relative_y(a: Particle, b: Particle) -> int {
    b.velocity.0.y - a.velocity.0.y
}

/// Half the change of `|v_a|^2 + |v_b|^2` when the impulse `(jx, jy)` is
/// taken from `a` and given to `b`, whose velocity relative to `a` is
/// `(rx, ry)`.
pub open spec fn energy_gain(jx: int, jy: int, rx: int, ry: int) -> int {
    jx * (rx + jx) + jy * (ry + jy)
}

/// The response to the pair `(a, b)`, if any. There is none when the
/// circles do not overlap, when the centres coincide (no normal), when the
/// particles are already separating, or when the response does not fit the
/// representable range. An impulse whose rounding would raise the sum of
/// the squared speeds is dropped, leaving only the position correction.
pub open spec fn contact_of(a: Particle, b: Particle) -> Option<Contact> {
    let dx = offset_x(a, b);
    let dy = offset_y(a, b);
    let q = dist2(a, b);
    let m = reach(a, b);
    let s = closing(a, b);
    let dist = sqrt_floor(q);
    let jx = impulse_part(dx, s, q);
    let jy = impulse_part(dy, s, q);
    let cx = correction_part(dx, m, dist);
    let cy = correction_part(dy, m, dist);
    if q > m * m || q == 0 || s > 0 {
        None
    } else if in_range(jx) && in_range(jy) && in_range(cx) && in_range(cy) {
        let keep = energy_gain(jx, jy, relative_x(a, b), relative_y(a, b)) <= 0;
        Some(
            Contact {
                impulse: if keep {
                    Vec2 { x: jx as i64, y: jy as i64 }
                } else {
                    Vec2 { x: 0, y: 0 }
                },
                correction: Vec2 { x: cx as i64, y: cy as i64 },
            },
        )
    } else {
        None
    }
}

/// True when `v` is a representable coordinate.
fn fits(v: i128) -> (r: bool)
    ensures
        r == in_range(v as int),
{
    -(LIMIT as i128) <= v && v <= LIMIT as i128
}

/// Computes the response to the pair `(a, b)`.
pub fn contact(a: &Particle, b: &Particle) -> (r: Option<Contact>)
    requires
        a.wf(),
        b.wf(),
    ensures
        r == contact_of(*a, *b),
{
    let dx = b.position.x as i128 - a.position.x as i128;
    let dy = b.position.y as i128 - a.position.y as i128;
    assert(0 <= dx * dx <= 40_000_000_000_000_000_000_000_000_000 && 0 <= dy * dy
        <= 40_000_000_000_000_000_000_000_000_000) by (nonlinear_arith)
        requires
            -200_000_000_000_000 <= dx <= 200_000_000_000_000,
            -200_000_000_000_000 <= dy <= 200_000_000_000_000,
    ;
    let q: i128 = dx * dx + dy * dy;
    let m: i128 = a.atom.radius as i128 + b.atom.radius as i128;
    assert(0 < m * m <= 4_000_000_000_000_000_000) by (nonlinear_arith)
        requires 0 < m <= 2_000_000_000;
    if q > m * m || q == 0 {
        return None;
    }
    assert(-2_000_000_000 <= dx <= 2_000_000_000 && -2_000_000_000 <= dy <= 2_000_000_000)
        by (nonlinear_arith)
        requires
            dx * dx + dy * dy <= 4_000_000_000_000_000_000,
            0 <= dx * dx,
            0 <= dy * dy,
    ;
    let rx = b.velocity.0.x as i128 - a.velocity.0.x as i128;
    let ry = b.velocity.0.y as i128 - a.velocity.0.y as i128;
    assert(-400_000_000_000_000_000_000_000 <= rx * dx <= 400_000_000_000_000_000_000_000
        && -400_000_000_000_000_000_000_000 <= ry * dy <= 400_000_000_000_000_000_000_000)
        by (nonlinear_arith)
        requires
            -200_000_000_000_000 <= rx <= 200_000_000_000_000,
            -200_000_000_000_000 <= ry <= 200_000_000_000_000,
            -2_000_000_000 <= dx <= 2_000_000_000,
            -2_000_000_000 <= dy <= 2_000_000_000,
    ;
    let s: i128 = rx * dx + ry * dy;
    if s > 0 {
        return None;
    }
    let ns: i128 = -s;
    assert(-1_600_000_000_000_000_000_000_000_000_000_000 <= dx * ns
        <= 1_600_000_000_000_000_000_000_000_000_000_000
        && -1_600_000_000_000_000_000_000_000_000_000_000 <= dy * ns
        <= 1_600_000_000_000_000_000_000_000_000_000_000) by (nonlinear_arith)
        requires
            0 <= ns <= 800_000_000_000_000_000_000_000,
            -2_000_000_000 <= dx <= 2_000_000_000,
            -2_000_000_000 <= dy <= 2_000_000_000,
    ;
    let jx = div_toward_zero(dx * ns, ELASTICITY_DIVISOR * q);
    let jy = div_toward_zero(dy * ns, ELASTICITY_DIVISOR * q);
    let qu: u64 = q as u64;
    assert(qu as int == q);
    let dist = floor_sqrt(qu) as i128;
    assert(dist * dist <= q && q < (dist + 1) * (dist + 1));
    assert(dist >= 1) by (nonlinear_arith)
        requires
            q >= 1,
            q < (dist + 1) * (dist + 1),
            dist >= 0,
    ;
    let gap: i128 = m - dist;
    assert(0 <= dist <= 2_000_000_000) by (nonlinear_arith)
        requires
            0 <= dist,
            dist * dist <= q,
            q <= 4_000_000_000_000_000_000,
    ;
    assert(-8_000_000_000_000_000_000 <= -dx * gap <= 8_000_000_000_000_000_000
        && -8_000_000_000_000_000_000 <= -dy * gap <= 8_000_000_000_000_000_000)
        by (nonlinear_arith)
        requires
            -4_000_000_000 <= gap <= 4_000_000_000,
            -2_000_000_000 <= dx <= 2_000_000_000,
            -2_000_000_000 <= dy <= 2_000_000_000,
    ;
    let cx = div_away_from_zero(-dx * gap, 2 * dist);
    let cy = div_away_from_zero(-dy * gap, 2 * dist);
    assert(dx * ns == dx * (-s) && dy * ns == dy * (-s));
    assert(-dx * gap == -dx * (m - dist));
    if !fits(jx) || !fits(jy) || !fits(cx) || !fits(cy) {
        return None;
    }
    assert(-100_000_000_000_000_000_000_000_000_000 <= jx * (rx + jx) <= 100_000_000_000_000_000_000_000_000_000
        && -100_000_000_000_000_000_000_000_000_000 <= jy * (ry + jy) <= 100_000_000_000_000_000_000_000_000_000)
        by (nonlinear_arith)
        requires
            -100_000_000_000_000 <= jx <= 100_000_000_000_000,
            -100_000_000_000_000 <= jy <= 100_000_000_000_000,
            -200_000_000_000_000 <= rx <= 200_000_000_000_000,
            -200_000_000_000_000 <= ry <= 200_000_000_000_000,
    ;
    let gain: i128 = jx * (rx + jx) + jy * (ry + jy);
    let (ix, iy): (i128, i128) = if gain <= 0 { (jx, jy) } else { (0, 0) };
    Some(
        Contact {
            impulse: Vec2 { x: ix as i64, y: iy as i64 },
            correction: Vec2 { x: cx as i64, y: cy as i64 },
        },
    )
}

/// Computes the response to the pair of particles at the given indices.
pub fn contact_at(particles: &Vec<Particle>, pair: (usize, usize)) -> (r: Option<Contact>)
    requires
        all_wf(particles@),
        pair.0 < particles@.len(),
        pair.1 < particles@.len(),
    ensures
        r == contact_of(particles@[pair.0 as int], particles@[pair.1 as int]),
{
    contact(&particles[pair.0], &particles[pair.1])
}

/// `pairs` lists every unordered pair of `0..n` exactly once, each with its
/// smaller index first.
pub open spec fn each_pair_once(pairs: Seq<(usize, usize)>, n: int) -> bool {
    &&& forall|k: int| #![trigger pairs[k]] 0 <= k < pairs.len() ==> pairs[k].0 < pairs[k].1 < n
    &&& forall|i: usize, j: usize| i < j < n ==> pairs.contains((i, j))
    &&& pairs.no_duplicates()
}

/// Relies on itertools' `tuple_combinations` (re-exported by iter_tools): on
/// the range `0..n` it yields each pair `(i, j)` with `i < j < n` once.
#[verifier::external_body]
fn combinations(n: usize) -> (r: Vec<(usize, usize)>)
    ensures
        each_pair_once(r@, n as int),
{
    (0..n).tuple_combinations::<(usize, usize)>().collect()
}

/// Every unordered pair of indices into a set of `n` particles, once each.
pub fn pair_indices(n: usize) -> (r: Vec<(usize, usize)>)
    ensures
        each_pair_once(r@, n as int),
{
    combinations(n)
}

/// The response to each listed pair, in list order.
pub open spec fn contacts_of(ps: Seq<Particle>, pairs: Seq<(usize, usize)>) -> Seq<Option<Contact>> {
    Seq::new(pairs.len(), |k: int| contact_of(ps[pairs[k].0 as int], ps[pairs[k].1 as int]))
}

/// Relies on rayon: an indexed parallel map over a slice, collected with
/// `collect_into_vec`, gives one result per element, in the slice's order.
/// Each result is computed by `contact_at`.
#[verifier::external_body]
fn detect_parallel(particles: &Vec<Particle>, pairs: &Vec<(usize, usize)>) -> (r: Vec<Option<Contact>>)
    requires
        all_wf(particles@),
        forall|k: int| 0 <= k < pairs@.len() ==> #[trigger] pairs@[k].0 < particles@.len() && pairs@[k].1 < particles@.len(),
    ensures
        r@ == contacts_of(particles@, pairs@),
{
    let mut out = Vec::new();
    pairs.par_iter().map(|pair| contact_at(particles, *pair)).collect_into_vec(&mut out);
    out
}

/// The detection phase: the response to every listed pair, computed from a
/// read-only view of the particle set.
pub fn detect(particles: &Vec<Particle>, pairs: &Vec<(usize, usize)>) -> (r: Vec<Option<Contact>>)
    requires
        all_wf(particles@),
        each_pair_once(pairs@, particles@.len() as int),
    ensures
        r@ == contacts_of(particles@, pairs@),
{
    detect_parallel(particles, pairs)
}

/// The correction records of one pair's response: one for each particle.
pub open spec fn pair_records(pair: (usize, usize), c: Option<Contact>) -> Seq<Correction> {
    match c {
        Some(c) => seq![
            Correction { id: pair.0, position: c.correction, velocity: neg(c.impulse) },
            Correction { id: pair.1, position: neg(c.correction), velocity: c.impulse },
        ],
        None => seq![],
    }
}

/// The correction records of all responses, pair by pair.
pub open spec fn records_of(pairs: Seq<(usize, usize)>, contacts: Seq<Option<Contact>>) -> Seq<Correction>
    decreases pairs.len(),
{
    if pairs.len() == 0 {
        seq![]
    } else {
        records_of(pairs.drop_last(), contacts.take(pairs.len() - 1))
            + pair_records(pairs.last(), contacts[pairs.len() - 1])
    }
}

/// All coordinates of a record are representable.
pub open spec fn record_wf(c: Correction) -> bool {
    c.position.wf() && c.velocity.wf()
}

fn negate(v: Vec2) -> (r: Vec2)
    requires
        v.wf(),
    ensures
        r == neg(v),
        r.wf(),
{
    Vec2 { x: -v.x, y: -v.y }
}

/// Turns the responses into correction records.
pub fn corrections(pairs: &Vec<(usize, usize)>, contacts: &Vec<Option<Contact>>) -> (r: Vec<Correction>)
    requires
        pairs@.len() == contacts@.len(),
        forall|k: int| 0 <= k < contacts@.len() ==> match #[trigger] contacts@[k] {
            Some(c) => c.impulse.wf() && c.correction.wf(),
            None => true,
        },
    ensures
        r@ == records_of(pairs@, contacts@),
{
    let mut out: Vec<Correction> = Vec::new();
    let mut k: usize = 0;
    while k < pairs.len()
        invariant
            pairs@.len() == contacts@.len(),
            0 <= k <= pairs@.len(),
            out@ == records_of(pairs@.take(k as int), contacts@.take(k as int)),
            forall|k: int| 0 <= k < contacts@.len() ==> match #[trigger] contacts@[k] {
                Some(c) => c.impulse.wf() && c.correction.wf(),
                None => true,
            },
        decreases pairs@.len() - k,
    {
        let pair = pairs[k];
        let c = contacts[k];
        proof {
            let ps = pairs@.take(k + 1);
            let cs = contacts@.take(k + 1);
            assert(ps.drop_last() =~= pairs@.take(k as int));
            assert(cs.take(k as int) =~= contacts@.take(k as int));
        }
        match c {
            Some(c) => {
                out.push(Correction { id: pair.0, position: c.correction, velocity: negate(c.impulse) });
                out.push(Correction { id: pair.1, position: negate(c.correction), velocity: c.impulse });
            },
            None => {},
        }
        k += 1;
    }
    assert(pairs@.take(pairs@.len() as int) =~= pairs@);
    assert(contacts@.take(contacts@.len() as int) =~= contacts@);
    out
}

/// One coordinate of a record's change: position x, position y,
/// velocity x, velocity y, for `part` 0 to 3.
pub open spec fn part_of(c: Correction, part: int) -> int {
    if part == 0 {
        c.position.x as int
    } else if part == 1 {
        c.position.y as int
    } else if part == 2 {
        c.velocity.x as int
    } else {
        c.velocity.y as int
    }
}

/// The sum of one coordinate of the changes that the records make to
/// particle `id`.
pub open spec fn total(records: Seq<Correction>, id: int, part: int) -> int
    decreases records.len(),
{
    if records.len() == 0 {
        0
    } else {
        total(records.drop_last(), id, part) + if records.last().id == id {
            part_of(records.last(), part)
        } else {
            0
        }
    }
}

/// Particle `id` after all of its changes, summed. Where the result would
/// leave the representable range the particle is left as it was.
pub open spec fn settle(p: Particle, records: Seq<Correction>, id: int) -> Particle {
    let px = p.position.x + total(records, id, 0);
    let py = p.position.y + total(records, id, 1);
    let vx = p.velocity.0.x + total(records, id, 2);
    let vy = p.velocity.0.y + total(records, id, 3);
    if in_range(px) && in_range(py) && in_range(vx) && in_range(vy) {
        p.with_position(px, py).with_velocity(vx, vy)
    } else {
        p
    }
}

/// Running sums of the changes to one particle.
#[derive(Clone, Copy, Debug, PartialEq, Eq)]
struct Sum {
    px: i128,
    py: i128,
    vx: i128,
    vy: i128,
}

spec fn sum_matches(s: Sum, records: Seq<Correction>, id: int) -> bool {
    &&& s.px == total(records, id, 0)
    &&& s.py == total(records, id, 1)
    &&& s.vx == total(records, id, 2)
    &&& s.vy == total(records, id, 3)
}

spec fn sum_bounded(s: Sum, k: int) -> bool {
    &&& -k * LIMIT <= s.px <= k * LIMIT
    &&& -k * LIMIT <= s.py <= k * LIMIT
    &&& -k * LIMIT <= s.vx <= k * LIMIT
    &&& -k * LIMIT <= s.vy <= k * LIMIT
}

/// The apply phase: sums the records' changes per particle, then applies
/// each particle's sums at once. Records of unknown particles are ignored.
pub fn apply_corrections(particles: &mut Vec<Particle>, records: &Vec<Correction>)
    requires
        all_wf(old(particles)@),
        forall|k: int| 0 <= k < records@.len() ==> record_wf(#[trigger] records@[k]),
    ensures
        final(particles)@.len() == old(particles)@.len(),
        forall|i: int|
            0 <= i < old(particles)@.len() ==> #[trigger] final(particles)@[i] == settle(
                old(particles)@[i],
                records@,
                i,
            ),
        all_wf(final(particles)@),
{
    let n = particles.len();
    let zero = Sum { px: 0, py: 0, vx: 0, vy: 0 };
    let mut sums: Vec<Sum> = vec![zero; n];
    let mut k: usize = 0;
    while k < records.len()
        invariant
            sums@.len() == n,
            0 <= k <= records@.len(),
            forall|i: int| 0 <= i < n ==> sum_matches(#[trigger] sums@[i], records@.take(k as int), i),
            forall|i: int| 0 <= i < n ==> sum_bounded(#[trigger] sums@[i], k as int),
            forall|k: int| 0 <= k < records@.len() ==> record_wf(#[trigger] records@[k]),
        decreases records@.len() - k,
    {
        let c = records[k];
        assert(record_wf(c));
        proof {
            assert(records@.take(k + 1).drop_last() =~= records@.take(k as int));
            assert(records@.take(k + 1).last() == c);
            assert((k + 1) * LIMIT == k * LIMIT + LIMIT) by (nonlinear_arith);
            assert(-(k + 1) * LIMIT == -k * LIMIT - LIMIT) by (nonlinear_arith);
            assert(0 <= k * LIMIT <= 0x1_0000_0000_0000_0000 * 100_000_000_000_000) by (nonlinear_arith)
                requires 0 <= k < 0x1_0000_0000_0000_0000, LIMIT == 100_000_000_000_000;
        }
        if c.id < n {
            let s = sums[c.id];
            assert(sum_bounded(s, k as int));
            sums[c.id] = Sum {
                px: s.px + c.position.x as i128,
                py: s.py + c.position.y as i128,
                vx: s.vx + c.velocity.x as i128,
                vy: s.vy + c.velocity.y as i128,
            };
        }
        k += 1;
    }
    assert(records@.take(records@.len() as int) =~= records@);
    let mut i: usize = 0;
    while i < n
        invariant
            sums@.len() == n,
            n == particles@.len(),
            n == old(particles)@.len(),
            0 <= i <= n,
            forall|j: int| 0 <= j < n ==> sum_matches(#[trigger] sums@[j], records@, j),
            forall|j: int| 0 <= j < n ==> sum_bounded(#[trigger] sums@[j], records@.len() as int),
            records@.len() < 0x1_0000_0000_0000_0000,
            forall|j: int| 0 <= j < i ==> #[trigger] particles@[j] == settle(old(particles)@[j], records@, j),
            forall|j: int| i <= j < n ==> #[trigger] particles@[j] == old(particles)@[j],
            all_wf(particles@),
        decreases n - i,
    {
        let p = particles[i];
        assert(p.wf());
        let s = sums[i];
        assert(sum_bounded(s, records@.len() as int));
        proof {
            let len = records@.len() as int;
            assert(0 <= len * LIMIT <= 0x1_0000_0000_0000_0000 * 100_000_000_000_000) by (nonlinear_arith)
                requires 0 <= len < 0x1_0000_0000_0000_0000, LIMIT == 100_000_000_000_000;
        }
        let px = p.position.x as i128 + s.px;
        let py = p.position.y as i128 + s.py;
        let vx = p.velocity.0.x as i128 + s.vx;
        let vy = p.velocity.0.y as i128 + s.vy;
        if fits(px) && fits(py) && fits(vx) && fits(vy) {
            particles[i] = Particle {
                position: Vec2 { x: px as i64, y: py as i64 },
                velocity: Velocity(Vec2 { x: vx as i64, y: vy as i64 }),
                atom: p.atom,
            };
        }
        i += 1;
    }
}

/// Every response of the list has representable coordinates.
pub open spec fn contacts_wf(contacts: Seq<Option<Contact>>) -> bool {
    forall|k: int| 0 <= k < contacts.len() ==> match #[trigger] contacts[k] {
        Some(c) => c.impulse.wf() && c.correction.wf(),
        None => true,
    }
}

proof fn lemma_records_wf(pairs: Seq<(usize, usize)>, contacts: Seq<Option<Contact>>)
    requires
        pairs.len() == contacts.len(),
        contacts_wf(contacts),
    ensures
        forall|k: int| 0 <= k < records_of(pairs, contacts).len() ==> record_wf(
            #[trigger] records_of(pairs, contacts)[k],
        ),
    decreases pairs.len(),
{
    if pairs.len() > 0 {
        let n = pairs.len() - 1;
        let cs = contacts.take(n);
        assert(contacts_wf(cs)) by {
            assert forall|k: int| 0 <= k < cs.len() implies match #[trigger] cs[k] {
                Some(c) => c.impulse.wf() && c.correction.wf(),
                None => true,
            } by {
                assert(cs[k] == contacts[k]);
            }
        }
        lemma_records_wf(pairs.drop_last(), cs);
        let last = contacts[n];
        assert(match last {
            Some(c) => c.impulse.wf() && c.correction.wf(),
            None => true,
        });
        let a = records_of(pairs.drop_last(), cs);
        let b = pair_records(pairs.last(), last);
        assert(records_of(pairs, contacts) == a + b);
        assert forall|k: int| 0 <= k < b.len() implies record_wf(#[trigger] b[k]) by {}
        assert forall|k: int| 0 <= k < (a + b).len() implies record_wf(#[trigger] (a + b)[k]) by {
            if k < a.len() {
                assert((a + b)[k] == a[k]);
            } else {
                assert((a + b)[k] == b[k - a.len()]);
            }
        }
    }
}

/// The particle set after one collision pass over the listed pairs: each
/// particle with the summed changes of every response it takes part in.
pub open spec fn resolved(ps: Seq<Particle>, pairs: Seq<(usize, usize)>) -> Seq<Particle> {
    let records = records_of(pairs, contacts_of(ps, pairs));
    Seq::new(ps.len(), |i: int| settle(ps[i], records, i))
}

/// One frame of collision response over the whole particle set: detection
/// over every unordered pair, then the serial apply phase.
pub fn collision(particles: &mut Vec<Particle>)
    requires
        all_wf(old(particles)@),
    ensures
        exists|pairs: Seq<(usize, usize)>|
            each_pair_once(pairs, old(particles)@.len() as int) && #[trigger] resolved(
                old(particles)@,
                pairs,
            ) == final(particles)@,
        all_wf(final(particles)@),
{
    let pairs = pair_indices(particles.len());
    let contacts = detect(particles, &pairs);
    assert(contacts_wf(contacts@)) by {
        assert forall|k: int| 0 <= k < contacts@.len() implies match #[trigger] contacts@[k] {
            Some(c) => c.impulse.wf() && c.correction.wf(),
            None => true,
        } by {
            assert(pairs@[k].0 < pairs@[k].1 < particles@.len());
        }
    }
    let records = corrections(&pairs, &contacts);
    proof {
        lemma_records_wf(pairs@, contacts@);
    }
    let ghost before = particles@;
    apply_corrections(particles, &records);
    assert(resolved(before, pairs@) =~= particles@);
}

/// Evaluating a pair in the other order gives the negated response.
pub proof fn lemma_contact_antisymmetric(a: Particle, b: Particle)
    requires
        a.wf(),
        b.wf(),
    ensures
        contact_of(b, a) == match contact_of(a, b) {
            Some(c) => Some(Contact { impulse: neg(c.impulse), correction: neg(c.correction) }),
            None => None,
        },
{
    let dx = offset_x(a, b);
    let dy = offset_y(a, b);
    let q = dist2(a, b);
    let s = closing(a, b);
    let m = reach(a, b);
    assert(offset_x(b, a) == -dx && offset_y(b, a) == -dy);
    assert(dist2(b, a) == q) by (nonlinear_arith)
        requires
            dist2(b, a) == (-dx) * (-dx) + (-dy) * (-dy),
            q == dx * dx + dy * dy,
    ;
    let rx = b.velocity.0.x - a.velocity.0.x;
    let ry = b.velocity.0.y - a.velocity.0.y;
    assert(closing(b, a) == s) by (nonlinear_arith)
        requires
            closing(b, a) == (-rx) * (-dx) + (-ry) * (-dy),
            s == rx * dx + ry * dy,
    ;
    assert(reach(b, a) == m);
    if !(q > m * m || q == 0 || s > 0) {
        let dist = sqrt_floor(q);
        assert(q >= 0) by (nonlinear_arith) requires q == dx * dx + dy * dy;
        crate::fixed::lemma_sqrt_floor_exists(q);
        assert((-dx) * (-s) == -(dx * (-s))) by (nonlinear_arith);
        assert((-dy) * (-s) == -(dy * (-s))) by (nonlinear_arith);
        crate::fixed::lemma_tdiv_odd(dx * (-s), ELASTICITY_DIVISOR * q);
        crate::fixed::lemma_tdiv_odd(dy * (-s), ELASTICITY_DIVISOR * q);
        assert(dist >= 1) by (nonlinear_arith)
            requires q >= 1, q < (dist + 1) * (dist + 1), dist >= 0;
        assert(-(-dx) * (m - dist) == -(-dx * (m - dist))) by (nonlinear_arith);
        assert(-(-dy) * (m - dist) == -(-dy * (m - dist))) by (nonlinear_arith);
        crate::fixed::lemma_adiv_odd(-dx * (m - dist), 2 * dist);
        crate::fixed::lemma_adiv_odd(-dy * (m - dist), 2 * dist);
        let jx = impulse_part(dx, s, q);
        let jy = impulse_part(dy, s, q);
        assert(energy_gain(-jx, -jy, -rx, -ry) == energy_gain(jx, jy, rx, ry)) by (nonlinear_arith);
    }
}

/// Collision detection is symmetric: the pair `(j, i)` yields the same two
/// records as the pair `(i, j)`, in swapped order.
pub proof fn lemma_pair_records_symmetric(a: Particle, b: Particle, i: usize, j: usize)
    requires
        a.wf(),
        b.wf(),
    ensures
        pair_records((j, i), contact_of(b, a)).len() == pair_records((i, j), contact_of(a, b)).len(),
        pair_records((i, j), contact_of(a, b)).len() == 2 ==> pair_records((j, i), contact_of(b, a))
            == seq![
            pair_records((i, j), contact_of(a, b))[1],
            pair_records((i, j), contact_of(a, b))[0],
        ],
{
    lemma_contact_antisymmetric(a, b);
    match contact_of(a, b) {
        Some(c) => {
            assert(neg(neg(c.impulse)) == c.impulse);
            assert(neg(neg(c.correction)) == c.correction);
            assert(pair_records((j, i), contact_of(b, a)) =~= seq![
                pair_records((i, j), contact_of(a, b))[1],
                pair_records((i, j), contact_of(a, b))[0],
            ]);
        },
        None => {},
    }
}

/// Particles that are moving apart get no response, whether or not they
/// overlap.
pub proof fn lemma_separating_untouched(a: Particle, b: Particle)
    requires
        closing(a, b) > 0,
    ensures
        contact_of(a, b) is None,
{
}

/// Coincident centres define no normal, so they get no response.
pub proof fn lemma_coincident_untouched(a: Particle, b: Particle)
    requires
        a.position == b.position,
    ensures
        contact_of(a, b) is None,
{
    assert(dist2(a, b) == 0);
}

proof fn lemma_impulse_component(d: int, s: int, q: int)
    requires
        s <= 0,
        q > 0,
    ensures
        impulse_part(d, s, q) * d >= 0,
        ELASTICITY_DIVISOR * q * (impulse_part(d, s, q) * d) <= d * d * (-s),
{
    let n = d * (-s);
    let den = ELASTICITY_DIVISOR * q;
    let j = impulse_part(d, s, q);
    crate::fixed::lemma_tdiv_bounds(n, den);
    if d >= 0 {
        assert(n >= 0) by (nonlinear_arith) requires d >= 0, s <= 0, n == d * (-s);
        assert(j * d >= 0) by (nonlinear_arith) requires j >= 0, d >= 0;
        assert(den * (j * d) <= n * d) by (nonlinear_arith) requires den * j <= n, d >= 0;
    } else {
        assert(n <= 0) by (nonlinear_arith) requires d < 0, s <= 0, n == d * (-s);
        assert(j * d >= 0) by (nonlinear_arith) requires j <= 0, d < 0;
        assert(den * (j * d) <= n * d) by (nonlinear_arith) requires den * j >= n, d < 0;
    }
    assert(n * d == d * d * (-s)) by (nonlinear_arith) requires n == d * (-s);
}

proof fn lemma_correction_component(d: int, m: int, dist: int)
    requires
        m >= dist,
        dist > 0,
    ensures
        correction_part(d, m, dist) * d <= 0,
        d != 0 && m > dist ==> correction_part(d, m, dist) != 0,
        (d - 2 * correction_part(d, m, dist)) * (d - 2 * correction_part(d, m, dist)) >= d * d,
        correction_part(d, m, dist) != 0 ==> (d - 2 * correction_part(d, m, dist)) * (d - 2
            * correction_part(d, m, dist)) > d * d,
{
    let g = m - dist;
    let n = -d * g;
    let c = correction_part(d, m, dist);
    crate::fixed::lemma_adiv_bounds(n, 2 * dist);
    if d >= 0 {
        assert(n <= 0) by (nonlinear_arith) requires d >= 0, g >= 0, n == -d * g;
        assert(c * d <= 0) by (nonlinear_arith) requires c <= 0, d >= 0;
        if d != 0 && g > 0 {
            assert(n < 0) by (nonlinear_arith) requires d > 0, g > 0, n == -d * g;
        }
    } else {
        assert(n >= 0) by (nonlinear_arith) requires d < 0, g >= 0, n == -d * g;
        assert(c * d <= 0) by (nonlinear_arith) requires c >= 0, d < 0;
        if g > 0 {
            assert(n > 0) by (nonlinear_arith) requires d < 0, g > 0, n == -d * g;
        }
    }
    assert((d - 2 * c) * (d - 2 * c) == d * d - 4 * (c * d) + 4 * (c * c)) by (nonlinear_arith);
    assert(c * c >= 0) by (nonlinear_arith);
    if c != 0 {
        assert(c * c > 0) by (nonlinear_arith) requires c != 0;
    }
}

/// Scaled by the distance, each offset component after the correction is at
/// least its share of the sum of the radii.
proof fn lemma_correction_clears(d: int, m: int, dist: int)
    requires
        m >= dist,
        dist > 0,
    ensures
        dist * dist * ((d - 2 * correction_part(d, m, dist)) * (d - 2 * correction_part(d, m, dist)))
            >= m * m * (d * d),
{
    let g = m - dist;
    let n = -d * g;
    let c = correction_part(d, m, dist);
    crate::fixed::lemma_adiv_bounds(n, 2 * dist);
    let e = d - 2 * c;
    if d >= 0 {
        assert(n <= 0) by (nonlinear_arith) requires d >= 0, g >= 0, n == -d * g;
        assert(dist * e >= d * m && d * m >= 0) by (nonlinear_arith)
            requires 2 * dist * c <= n, n == -d * g, g == m - dist, e == d - 2 * c, d >= 0, m >= 0;
    } else {
        assert(n >= 0) by (nonlinear_arith) requires d < 0, g >= 0, n == -d * g;
        assert(dist * (-e) >= (-d) * m && (-d) * m >= 0) by (nonlinear_arith)
            requires 2 * dist * c >= n, n == -d * g, g == m - dist, e == d - 2 * c, d < 0, m >= 0;
        assert(dist * e * (dist * e) == (dist * (-e)) * (dist * (-e)) && d * m * (d * m) == ((-d) * m)
            * ((-d) * m)) by (nonlinear_arith);
    }
    assert(dist * dist * (e * e) == (dist * e) * (dist * e) && m * m * (d * d) == (d * m) * (d * m))
        by (nonlinear_arith);
    if d >= 0 {
        assert((dist * e) * (dist * e) >= (d * m) * (d * m)) by (nonlinear_arith)
            requires dist * e >= d * m, d * m >= 0;
    } else {
        assert(((dist * (-e)) * (dist * (-e))) >= ((-d) * m) * ((-d) * m)) by (nonlinear_arith)
            requires dist * (-e) >= (-d) * m, (-d) * m >= 0;
    }
}

/// Closing speed, scaled by the distance, once the response's impulse has
/// been taken from `a` and given to `b`.
pub open spec fn closing_after(a: Particle, b: Particle, c: Contact) -> int {
    (b.velocity.0.x - a.velocity.0.x + 2 * c.impulse.x) * offset_x(a, b) + (b.velocity.0.y
        - a.velocity.0.y + 2 * c.impulse.y) * offset_y(a, b)
}

/// Squared distance once the response's correction has been added to `a`
/// and taken from `b`.
pub open spec fn dist2_after(a: Particle, b: Particle, c: Contact) -> int {
    (offset_x(a, b) - 2 * c.correction.x) * (offset_x(a, b) - 2 * c.correction.x) + (offset_y(a, b)
        - 2 * c.correction.y) * (offset_y(a, b) - 2 * c.correction.y)
}

/// Under the response to an overlapping, approaching pair the closing speed
/// keeps its sign and does not grow, shrinking by up to twice the
/// elasticity; the circles are not pushed closer, strictly apart whenever
/// they overlap strictly, and far enough that they no longer overlap.
pub proof fn lemma_response_separates(a: Particle, b: Particle)
    requires
        a.wf(),
        b.wf(),
        contact_of(a, b) is Some,
    ensures
        closing(a, b) <= closing_after(a, b, contact_of(a, b)->Some_0) <= 0,
        ELASTICITY_DIVISOR * closing_after(a, b, contact_of(a, b)->Some_0) <= (ELASTICITY_DIVISOR
            - 2) * closing(a, b),
        dist2_after(a, b, contact_of(a, b)->Some_0) >= dist2(a, b),
        contact_of(a, b)->Some_0.correction != (Vec2 { x: 0, y: 0 }) ==> dist2_after(
            a,
            b,
            contact_of(a, b)->Some_0,
        ) > dist2(a, b),
        dist2(a, b) < reach(a, b) * reach(a, b) ==> dist2_after(a, b, contact_of(a, b)->Some_0)
            > dist2(a, b),
        dist2_after(a, b, contact_of(a, b)->Some_0) >= reach(a, b) * reach(a, b),
{
    lemma_correction_opposes(a, b);
    let c = contact_of(a, b)->Some_0;
    let dx = offset_x(a, b);
    let dy = offset_y(a, b);
    let q = dist2(a, b);
    let m = reach(a, b);
    let s = closing(a, b);
    assert(q >= 0) by (nonlinear_arith) requires q == dx * dx + dy * dy;
    assert(q > 0 && s <= 0 && q <= m * m);
    crate::fixed::lemma_sqrt_floor_exists(q);
    let dist = sqrt_floor(q);
    assert(dist >= 1) by (nonlinear_arith)
        requires q >= 1, q < (dist + 1) * (dist + 1), dist >= 0;
    assert(dist <= m) by (nonlinear_arith)
        requires dist * dist <= q, q <= m * m, m > 0, dist >= 0;
    lemma_impulse_component(dx, s, q);
    lemma_impulse_component(dy, s, q);
    let jx = c.impulse.x as int;
    let jy = c.impulse.y as int;
    if jx == 0 && jy == 0 {
        assert(5 * q * (jx * dx) <= dx * dx * (-s) && jx * dx >= 0) by (nonlinear_arith)
            requires jx == 0, s <= 0;
        assert(5 * q * (jy * dy) <= dy * dy * (-s) && jy * dy >= 0) by (nonlinear_arith)
            requires jy == 0, s <= 0;
    } else {
        assert(jx == impulse_part(dx, s, q) && jy == impulse_part(dy, s, q));
    }
    let rx = b.velocity.0.x - a.velocity.0.x;
    let ry = b.velocity.0.y - a.velocity.0.y;
    assert(closing_after(a, b, c) == s + 2 * (jx * dx + jy * dy)) by (nonlinear_arith)
        requires
            closing_after(a, b, c) == (rx + 2 * jx) * dx + (ry + 2 * jy) * dy,
            s == rx * dx + ry * dy,
    ;
    assert(5 * (jx * dx + jy * dy) <= -s) by (nonlinear_arith)
        requires
            5 * q * (jx * dx) <= dx * dx * (-s),
            5 * q * (jy * dy) <= dy * dy * (-s),
            q == dx * dx + dy * dy,
            q > 0,
    ;
    lemma_correction_component(dx, m, dist);
    lemma_correction_component(dy, m, dist);
    assert(c.correction.x == correction_part(dx, m, dist));
    assert(c.correction.y == correction_part(dy, m, dist));
    lemma_correction_clears(dx, m, dist);
    lemma_correction_clears(dy, m, dist);
    let ex = dx - 2 * c.correction.x;
    let ey = dy - 2 * c.correction.y;
    assert(dist * dist * (ex * ex + ey * ey) >= m * m * q) by (nonlinear_arith)
        requires
            dist * dist * (ex * ex) >= m * m * (dx * dx),
            dist * dist * (ey * ey) >= m * m * (dy * dy),
            q == dx * dx + dy * dy,
    ;
    assert(m * m * q >= m * m * (dist * dist)) by (nonlinear_arith) requires q >= dist * dist;
    assert(ex * ex + ey * ey >= m * m) by (nonlinear_arith)
        requires
            dist * dist * (ex * ex + ey * ey) >= m * m * (dist * dist),
            dist > 0,
    ;
}

/// The correction of a response never points from `a` toward `b`.
proof fn lemma_correction_opposes(a: Particle, b: Particle)
    requires
        a.wf(),
        b.wf(),
        contact_of(a, b) is Some,
    ensures
        contact_of(a, b)->Some_0.correction.x * offset_x(a, b) <= 0,
        contact_of(a, b)->Some_0.correction.y * offset_y(a, b) <= 0,
        dist2(a, b) < reach(a, b) * reach(a, b) ==> contact_of(a, b)->Some_0.correction.x != 0
            || contact_of(a, b)->Some_0.correction.y != 0,
{
    let dx = offset_x(a, b);
    let dy = offset_y(a, b);
    let q = dist2(a, b);
    let m = reach(a, b);
    assert(q >= 0) by (nonlinear_arith) requires q == dx * dx + dy * dy;
    crate::fixed::lemma_sqrt_floor_exists(q);
    let dist = sqrt_floor(q);
    assert(dist >= 1) by (nonlinear_arith)
        requires q >= 1, q < (dist + 1) * (dist + 1), dist >= 0;
    assert(dist <= m) by (nonlinear_arith)
        requires dist * dist <= q, q <= m * m, m > 0, dist >= 0;
    if q < m * m {
        assert(dist < m) by (nonlinear_arith)
            requires dist * dist <= q, q < m * m, m > 0, dist >= 0;
        assert(dx != 0 || dy != 0) by {
            if dx == 0 && dy == 0 {
                assert(q == 0);
            }
        }
    }
    lemma_correction_component(dx, m, dist);
    lemma_correction_component(dy, m, dist);
}

proof fn lemma_moved_apart(d: int, c: int, k: int)
    requires
        c * d <= 0,
        0 <= k <= 2,
    ensures
        (d - k * c) * (d - k * c) >= d * d,
        k >= 1 && c != 0 ==> (d - k * c) * (d - k * c) > d * d,
{
    assert((d - k * c) * (d - k * c) == d * d - 2 * (k * (c * d)) + (k * c) * (k * c)) by (nonlinear_arith);
    assert(k * (c * d) <= 0) by (nonlinear_arith) requires c * d <= 0, k >= 0;
    assert((k * c) * (k * c) >= 0) by (nonlinear_arith);
    if k >= 1 && c != 0 {
        assert(k * c != 0) by (nonlinear_arith) requires k >= 1, c != 0;
        assert((k * c) * (k * c) > 0) by (nonlinear_arith) requires k * c != 0;
    }
}

/// A full collision pass over two particles never brings their centres
/// closer. A strictly overlapping pair that gets a response is moved
/// strictly apart, unless the representable range keeps both particles
/// where they were.
pub proof fn lemma_pass_keeps_pair_apart(a: Particle, b: Particle, pairs: Seq<(usize, usize)>)
    requires
        a.wf(),
        b.wf(),
        each_pair_once(pairs, 2),
    ensures
        dist2(resolved(seq![a, b], pairs)[0], resolved(seq![a, b], pairs)[1]) >= dist2(a, b),
        contact_of(a, b) is Some && dist2(a, b) < reach(a, b) * reach(a, b) ==> dist2(
            resolved(seq![a, b], pairs)[0],
            resolved(seq![a, b], pairs)[1],
        ) > dist2(a, b) || (resolved(seq![a, b], pairs)[0] == a && resolved(seq![a, b], pairs)[1]
            == b),
{
    let ps = seq![a, b];
    assert(pairs.contains((0usize, 1usize)));
    assert forall|k: int| 0 <= k < pairs.len() implies #[trigger] pairs[k] == (0usize, 1usize) by {
        assert(pairs[k].0 < pairs[k].1 < 2);
    }
    assert(pairs.len() == 1) by {
        if pairs.len() >= 2 {
            assert(pairs[0] == pairs[1]);
        }
    }
    assert(pairs[0] == (0usize, 1usize));
    let contacts = contacts_of(ps, pairs);
    assert(contacts[0] == contact_of(a, b));
    assert(pairs.drop_last().len() == 0);
    let records = records_of(pairs, contacts);
    assert(records_of(pairs.drop_last(), contacts.take(0)) == Seq::<Correction>::empty());
    assert(pairs.last() == (0usize, 1usize));
    assert(records =~= pair_records((0usize, 1usize), contact_of(a, b)));
    let r = resolved(ps, pairs);
    match contact_of(a, b) {
        Some(c) => {
            lemma_correction_opposes(a, b);
            let ra = Correction { id: 0, position: c.correction, velocity: neg(c.impulse) };
            let rb = Correction { id: 1, position: neg(c.correction), velocity: c.impulse };
            assert(records.drop_last() =~= seq![ra]);
            assert(seq![ra].drop_last() =~= Seq::<Correction>::empty());
            assert forall|part: int| #![trigger total(records, 0, part)]
                total(records, 0, part) == part_of(ra, part) && total(records, 1, part) == part_of(rb, part)
            by {
                assert(total(Seq::<Correction>::empty(), 0, part) == 0);
                assert(total(Seq::<Correction>::empty(), 1, part) == 0);
                assert(total(seq![ra], 0, part) == part_of(ra, part));
                assert(total(seq![ra], 1, part) == 0);
            }
            assert(total(records, 0, 0) == c.correction.x && total(records, 0, 1) == c.correction.y);
            assert(total(records, 1, 0) == -c.correction.x && total(records, 1, 1) == -c.correction.y);
            let dx = offset_x(a, b);
            let dy = offset_y(a, b);
            let cx = c.correction.x as int;
            let cy = c.correction.y as int;
            assert(r[0] == settle(a, records, 0) && r[1] == settle(b, records, 1));
            let ka: int = if r[0] == a { 0 } else { 1 };
            let kb: int = if r[1] == b { 0 } else { 1 };
            assert(r[0].position.x == a.position.x + ka * cx && r[0].position.y == a.position.y + ka * cy) by {
                if r[0] == a {
                    assert(0 * cx == 0 && 0 * cy == 0);
                } else {
                    assert(1 * cx == cx && 1 * cy == cy);
                }
            }
            assert(r[1].position.x == b.position.x - kb * cx && r[1].position.y == b.position.y - kb * cy) by {
                if r[1] == b {
                    assert(0 * cx == 0 && 0 * cy == 0);
                } else {
                    assert(1 * cx == cx && 1 * cy == cy);
                }
            }
            assert(ka * cx + kb * cx == (ka + kb) * cx && ka * cy + kb * cy == (ka + kb) * cy) by (nonlinear_arith);
            assert(offset_x(r[0], r[1]) == dx - (ka + kb) * cx);
            assert(offset_y(r[0], r[1]) == dy - (ka + kb) * cy);
            lemma_moved_apart(dx, c.correction.x as int, ka + kb);
            lemma_moved_apart(dy, c.correction.y as int, ka + kb);
        },
        None => {
            assert(records.len() == 0);
            assert(r[0] == a && r[1] == b);
        },
    }
}

/// Sum of the squared speeds of two particles.
pub open spec fn kinetic(va: Vec2, vb: Vec2) -> int {
    va.x * va.x + va.y * va.y + vb.x * vb.x + vb.y * vb.y
}

/// A response never adds energy: taking its impulse from `a` and giving it
/// to `b` does not raise the sum of their squared speeds.
pub proof fn lemma_response_adds_no_energy(a: Particle, b: Particle)
    requires
        a.wf(),
        b.wf(),
        contact_of(a, b) is Some,
    ensures
        ({
            let j = contact_of(a, b)->Some_0.impulse;
            let va = a.velocity.0;
            let vb = b.velocity.0;
            (va.x - j.x) * (va.x - j.x) + (va.y - j.y) * (va.y - j.y) + (vb.x + j.x) * (vb.x + j.x)
                + (vb.y + j.y) * (vb.y + j.y) <= kinetic(va, vb)
        }),
{
    let j = contact_of(a, b)->Some_0.impulse;
    let va = a.velocity.0;
    let vb = b.velocity.0;
    let jx = j.x as int;
    let jy = j.y as int;
    let rx = relative_x(a, b);
    let ry = relative_y(a, b);
    assert(energy_gain(jx, jy, rx, ry) <= 0) by {
        if jx == 0 && jy == 0 {
            assert(energy_gain(jx, jy, rx, ry) == 0) by (nonlinear_arith) requires jx == 0, jy == 0;
        }
    }
    assert((va.x - jx) * (va.x - jx) + (va.y - jy) * (va.y - jy) + (vb.x + jx) * (vb.x + jx)
        + (vb.y + jy) * (vb.y + jy) == kinetic(va, vb) + 2 * energy_gain(jx, jy, rx, ry))
        by (nonlinear_arith)
        requires
            rx == vb.x - va.x,
            ry == vb.y - va.y,
    ;
}

/// A full collision pass over two particles that are moving apart leaves
/// both exactly as they were, whether or not they overlap.
pub proof fn lemma_pass_skips_separating(a: Particle, b: Particle, pairs: Seq<(usize, usize)>)
    requires
        a.wf(),
        b.wf(),
        each_pair_once(pairs, 2),
        closing(a, b) > 0,
    ensures
        resolved(seq![a, b], pairs) == seq![a, b],
{
    let ps = seq![a, b];
    assert(pairs.contains((0usize, 1usize)));
    assert forall|k: int| 0 <= k < pairs.len() implies #[trigger] pairs[k] == (0usize, 1usize) by {
        assert(pairs[k].0 < pairs[k].1 < 2);
    }
    assert(pairs.len() == 1) by {
        if pairs.len() >= 2 {
            assert(pairs[0] == pairs[1]);
        }
    }
    let contacts = contacts_of(ps, pairs);
    assert(contacts[0] == contact_of(a, b));
    assert(contact_of(a, b) is None);
    assert(records_of(pairs.drop_last(), contacts.take(0)) == Seq::<Correction>::empty());
    let records = records_of(pairs, contacts);
    assert(records =~= Seq::<Correction>::empty());
    let r = resolved(ps, pairs);
    assert(r =~= ps);
}

} // verus!
