//! Broad-phase collision culling and narrow-phase elastic response.
//!
//! `sweep_and_prune` culls candidate circle pairs by sorting interval
//! endpoints along each axis and sweeping a bracket stack over them;
//! `brute_force_collison` generates every pair instead. Both confirm
//! candidates with the same exact squared-distance test and hand them to the
//! same response pass, which reflects each displacement about the contact
//! normal. `prevent_out_of_bound` flips displacements that would leave the
//! box. Every routine's result is pinned by a specification function that
//! mirrors it over unbounded integers.

use vstd::prelude::*;
use crate::fixed::{div_tz, iabs};
use crate::vec2::{Vec2, V2};

verus! {

/// Mathematical value of an endpoint: a fixed-point coordinate paired with
/// the index of the circle it belongs to.
pub open spec fn ep1(e: (i64, usize)) -> (int, int) {
    (e.0 as int, e.1 as int)
}

/// Mathematical value of an endpoint list.
pub open spec fn epv(s: Seq<(i64, usize)>) -> Seq<(int, int)> {
    s.map_values(|e: (i64, usize)| ep1(e))
}

/// Mathematical value of an index list.
pub open spec fn idxv(s: Seq<usize>) -> Seq<int> {
    s.map_values(|i: usize| i as int)
}

/// Mathematical value of a radius list.
pub open spec fn radv(s: Seq<i64>) -> Seq<int> {
    s.map_values(|r: i64| r as int)
}

/// Mathematical value of a vector list.
pub open spec fn v2v(s: Seq<Vec2>) -> Seq<V2> {
    s.map_values(|p: Vec2| p@)
}

/// Endpoints are ordered by coordinate, ties by circle index.
pub open spec fn ep_leq(a: (int, int), b: (int, int)) -> bool {
    a.0 < b.0 || (a.0 == b.0 && a.1 <= b.1)
}

pub open spec fn ep_sorted(s: Seq<(int, int)>) -> bool {
    forall|i: int, j: int| 0 <= i <= j < s.len() ==> #[trigger] ep_leq(s[i], s[j])
}

/// Where endpoint sorting places a new element: after every endpoint that
/// compares less-or-equal, so ties keep their arrival order.
pub open spec fn ep_insert(t: Seq<(int, int)>, e: (int, int)) -> Seq<(int, int)>
    decreases t.len(),
{
    if t.len() == 0 {
        seq![e]
    } else if ep_leq(t.last(), e) {
        t.push(e)
    } else {
        ep_insert(t.drop_last(), e).push(t.last())
    }
}

/// The sorted endpoint list, built by inserting one element at a time.
pub open spec fn ep_sort(s: Seq<(int, int)>) -> Seq<(int, int)>
    decreases s.len(),
{
    if s.len() == 0 {
        Seq::empty()
    } else {
        ep_insert(ep_sort(s.drop_last()), s.last())
    }
}

proof fn lemma_ep_insert_shape(t: Seq<(int, int)>, e: (int, int), k: int)
    requires
        ep_sorted(t),
        0 <= k <= t.len(),
        forall|j: int| 0 <= j < k ==> ep_leq(#[trigger] t[j], e),
        k < t.len() ==> !ep_leq(t[k], e),
    ensures
        ep_insert(t, e) == t.subrange(0, k).push(e) + t.subrange(k, t.len() as int),
        ep_sorted(ep_insert(t, e)),
        ep_insert(t, e).len() == t.len() + 1,
    decreases t.len(),
{
    let r = t.subrange(0, k).push(e) + t.subrange(k, t.len() as int);
    if t.len() == 0 {
        assert(ep_insert(t, e) =~= r);
    } else if ep_leq(t.last(), e) {
        if k < t.len() {
            assert(ep_leq(t[k], t.last()));
            assert(false);
        }
        assert(ep_insert(t, e) == t.push(e));
        assert(ep_insert(t, e) =~= r);
    } else {
        let t0 = t.drop_last();
        assert(ep_sorted(t0)) by {
            assert forall|i: int, j: int| 0 <= i <= j < t0.len() implies #[trigger] ep_leq(
                t0[i],
                t0[j],
            ) by {
                assert(t0[i] == t[i] && t0[j] == t[j]);
            }
        }
        if k == t.len() {
            assert(ep_leq(t[t.len() - 1], e));
            assert(false);
        }
        assert(forall|j: int| 0 <= j < k ==> ep_leq(#[trigger] t0[j], e)) by {
            assert(forall|j: int| 0 <= j < k ==> t0[j] == t[j]);
        }
        lemma_ep_insert_shape(t0, e, k);
        assert(ep_insert(t, e) == ep_insert(t0, e).push(t.last()));
        assert(ep_insert(t, e) =~= r);
    }
    // sortedness of the assembled shape
    assert forall|i: int, j: int| 0 <= i <= j < r.len() implies #[trigger] ep_leq(r[i], r[j]) by {
        if i < k {
            assert(r[i] == t[i]);
        } else if i == k {
            assert(r[i] == e);
        } else {
            assert(r[i] == t[i - 1]);
        }
        if j < k {
            assert(r[j] == t[j]);
        } else if j == k {
            assert(r[j] == e);
        } else {
            assert(r[j] == t[j - 1]);
        }
        if i < k && j == k {
            assert(ep_leq(t[i], e));
        } else if i == k && j > k {
            assert(!ep_leq(t[k], e));
            assert(ep_leq(t[k], t[j - 1]));
        } else if i < k && j > k {
            assert(ep_leq(t[i], t[j - 1]));
        }
    }
}

/// Exact comparison backing the sorts.
fn ep_le(a: (i64, usize), b: (i64, usize)) -> (r: bool)
    ensures
        r == ep_leq(ep1(a), ep1(b)),
{
    a.0 < b.0 || (a.0 == b.0 && a.1 <= b.1)
}

fn ep_insert_exec(v: &mut Vec<(i64, usize)>, e: (i64, usize))
    requires
        ep_sorted(epv(old(v)@)),
        old(v)@.len() < 0xffff_ffff,
    ensures
        epv(final(v)@) == ep_insert(epv(old(v)@), ep1(e)),
        ep_sorted(epv(final(v)@)),
        final(v)@.len() == old(v)@.len() + 1,
{
    let mut k: usize = 0;
    while k < v.len() && ep_le(v[k], e)
        invariant
            k <= v@.len(),
            v@ == old(v)@,
            forall|j: int| 0 <= j < k ==> ep_leq(#[trigger] epv(v@)[j], ep1(e)),
        decreases v@.len() - k,
    {
        k += 1;
    }
    proof {
        lemma_ep_insert_shape(epv(v@), ep1(e), k as int);
    }
    v.insert(k, e);
    assert(epv(v@) =~= epv(old(v)@).subrange(0, k as int).push(ep1(e)) + epv(old(v)@).subrange(
        k as int,
        old(v)@.len() as int,
    ));
}

/// Sorts an endpoint list by coordinate, ties by index, exactly as
/// `ep_sort` describes.
fn sort_eps(input: &Vec<(i64, usize)>) -> (out: Vec<(i64, usize)>)
    requires
        input@.len() < 0xffff_ffff,
    ensures
        epv(out@) == ep_sort(epv(input@)),
        ep_sorted(epv(out@)),
        out@.len() == input@.len(),
{
    let mut out: Vec<(i64, usize)> = Vec::new();
    let mut i: usize = 0;
    while i < input.len()
        invariant
            i <= input@.len(),
            input@.len() < 0xffff_ffff,
            out@.len() == i,
            epv(out@) == ep_sort(epv(input@).take(i as int)),
            ep_sorted(epv(out@)),
        decreases input@.len() - i,
    {
        ep_insert_exec(&mut out, input[i]);
        proof {
            let full = epv(input@);
            assert(full.take(i + 1).drop_last() =~= full.take(i as int));
            assert(full.take(i + 1).last() == ep1(input@[i as int]));
        }
        i += 1;
    }
    proof {
        assert(epv(input@).take(input@.len() as int) =~= epv(input@));
    }
    out
}

/// Index lists are kept strictly increasing: sorted with duplicates dropped.
pub open spec fn ix_sorted(s: Seq<int>) -> bool {
    forall|i: int, j: int| 0 <= i < j < s.len() ==> s[i] < s[j]
}

/// Where sorted-unique insertion places a new index: duplicates are dropped,
/// everything else keeps strict order.
pub open spec fn ix_insert(t: Seq<int>, e: int) -> Seq<int>
    decreases t.len(),
{
    if t.len() == 0 {
        seq![e]
    } else if t.last() == e {
        t
    } else if t.last() < e {
        t.push(e)
    } else {
        ix_insert(t.drop_last(), e).push(t.last())
    }
}

/// The sorted, deduplicated index list.
pub open spec fn ix_sortu(s: Seq<int>) -> Seq<int>
    decreases s.len(),
{
    if s.len() == 0 {
        Seq::empty()
    } else {
        ix_insert(ix_sortu(s.drop_last()), s.last())
    }
}

/// Every index in the list lies in `[0, n)`.
pub open spec fn ix_below(s: Seq<int>, n: int) -> bool {
    forall|j: int| 0 <= j < s.len() ==> 0 <= #[trigger] s[j] < n
}

proof fn lemma_ix_insert_shape(t: Seq<int>, e: int, k: int)
    requires
        ix_sorted(t),
        0 <= k <= t.len(),
        forall|j: int| 0 <= j < k ==> #[trigger] t[j] < e,
        k < t.len() ==> t[k] >= e,
    ensures
        (k < t.len() && t[k] == e) ==> ix_insert(t, e) == t,
        !(k < t.len() && t[k] == e) ==> ix_insert(t, e) == t.subrange(0, k).push(e) + t.subrange(
            k,
            t.len() as int,
        ),
        ix_sorted(ix_insert(t, e)),
    decreases t.len(),
{
    if t.len() == 0 {
        assert(ix_insert(t, e) =~= t.subrange(0, k).push(e) + t.subrange(k, t.len() as int));
    } else if t.last() == e {
        assert(k == t.len() - 1) by {
            if k < t.len() - 1 {
                assert(t[k] < t[t.len() - 1]);
            }
            if k == t.len() {
                assert(t[t.len() - 1] < e);
            }
        }
        assert(ix_insert(t, e) == t);
    } else if t.last() < e {
        assert(k == t.len()) by {
            if k < t.len() {
                assert(t[k] <= t[t.len() - 1]) by {
                    if k < t.len() - 1 {
                        assert(t[k] < t[t.len() - 1]);
                    }
                }
            }
        }
        assert(ix_insert(t, e) =~= t.subrange(0, k).push(e) + t.subrange(k, t.len() as int));
    } else {
        let t0 = t.drop_last();
        assert(k < t.len()) by {
            if k == t.len() {
                assert(t[t.len() - 1] < e);
            }
        }
        assert(ix_sorted(t0)) by {
            assert(forall|i: int, j: int|
                0 <= i < j < t0.len() ==> t0[i] == t[i] && t0[j] == t[j]);
        }
        assert(forall|j: int| 0 <= j < k ==> #[trigger] t0[j] < e) by {
            assert(forall|j: int| 0 <= j < k ==> t0[j] == t[j]);
        }
        lemma_ix_insert_shape(t0, e, k);
        if k < t0.len() && t0[k] == e {
            assert(t[k] == e);
            assert(ix_insert(t, e) == ix_insert(t0, e).push(t.last()));
            assert(ix_insert(t, e) =~= t);
        } else {
            assert(ix_insert(t, e) =~= t.subrange(0, k).push(e) + t.subrange(
                k,
                t.len() as int,
            ));
        }
    }
    // strict order of the assembled shape
    if !(k < t.len() && t[k] == e) {
        let r = t.subrange(0, k).push(e) + t.subrange(k, t.len() as int);
        assert forall|i: int, j: int| 0 <= i < j < r.len() implies r[i] < r[j] by {
            if i < k {
                assert(r[i] == t[i]);
            } else if i == k {
                assert(r[i] == e);
            } else {
                assert(r[i] == t[i - 1]);
            }
            if j < k {
                assert(r[j] == t[j]);
            } else if j == k {
                assert(r[j] == e);
            } else {
                assert(r[j] == t[j - 1]);
            }
            if i < k && j == k {
                assert(t[i] < e);
            } else if i == k && j > k {
                assert(t[j - 1] >= e && t[j - 1] != e) by {
                    if j - 1 > k {
                        assert(t[k] < t[j - 1]);
                    }
                }
            } else if i < k && j > k {
                assert(t[i] < e <= t[j - 1]) by {
                    if j - 1 > k {
                        assert(t[k] < t[j - 1]);
                    }
                }
            }
        }
        assert(ix_sorted(ix_insert(t, e)));
    }
}

/// Every index that sorted-unique insertion keeps was there or is the new one.
proof fn lemma_ix_insert_below(t: Seq<int>, e: int, n: int)
    requires
        ix_below(t, n),
        0 <= e < n,
    ensures
        ix_below(ix_insert(t, e), n),
    decreases t.len(),
{
    if t.len() == 0 {
    } else if t.last() == e {
    } else if t.last() < e {
    } else {
        let t0 = t.drop_last();
        assert(ix_below(t0, n)) by {
            assert(forall|j: int| 0 <= j < t0.len() ==> t0[j] == t[j]);
        }
        lemma_ix_insert_below(t0, e, n);
    }
}

fn ix_insert_exec(v: &mut Vec<usize>, e: usize)
    requires
        ix_sorted(idxv(old(v)@)),
        old(v)@.len() < 0xffff_ffff,
    ensures
        idxv(final(v)@) == ix_insert(idxv(old(v)@), e as int),
        ix_sorted(idxv(final(v)@)),
        final(v)@.len() <= old(v)@.len() + 1,
{
    let mut k: usize = 0;
    while k < v.len() && v[k] < e
        invariant
            k <= v@.len(),
            v@ == old(v)@,
            forall|j: int| 0 <= j < k ==> #[trigger] idxv(v@)[j] < e as int,
        decreases v@.len() - k,
    {
        k += 1;
    }
    proof {
        lemma_ix_insert_shape(idxv(v@), e as int, k as int);
    }
    if k < v.len() && v[k] == e {
        // duplicate: the list already holds this index
        assert(idxv(v@) =~= ix_insert(idxv(old(v)@), e as int));
    } else {
        v.insert(k, e);
        assert(idxv(v@) =~= idxv(old(v)@).subrange(0, k as int).push(e as int) + idxv(
            old(v)@,
        ).subrange(k as int, old(v)@.len() as int));
    }
}

/// One step of the bracket sweep: closing the interval on top of the stack
/// pops it, anything else is pushed.
pub open spec fn sweep_step(acc: Seq<int>, i: int) -> Seq<int> {
    if acc.len() > 0 && acc.last() == i {
        acc.drop_last()
    } else {
        acc.push(i)
    }
}

/// The bracket sweep over the endpoints from position `k` on, starting from
/// stack `acc`.
pub open spec fn sweep_rest(s: Seq<(int, int)>, k: int, acc: Seq<int>) -> Seq<int>
    decreases s.len() - k,
{
    if k < 0 || k >= s.len() {
        acc
    } else {
        sweep_rest(s, k + 1, sweep_step(acc, s[k].1))
    }
}

/// What the whole bracket sweep leaves on the stack.
pub open spec fn sweep_all(s: Seq<(int, int)>) -> Seq<int> {
    sweep_rest(s, 0, Seq::empty())
}

/// Every endpoint in the list names a circle index in `[0, n)`.
pub open spec fn ep_below(s: Seq<(int, int)>, n: int) -> bool {
    forall|j: int| 0 <= j < s.len() ==> 0 <= (#[trigger] s[j]).1 < n
}

proof fn lemma_ep_insert_below(t: Seq<(int, int)>, e: (int, int), n: int)
    requires
        ep_below(t, n),
        0 <= e.1 < n,
    ensures
        ep_below(ep_insert(t, e), n),
    decreases t.len(),
{
    if t.len() == 0 {
    } else if ep_leq(t.last(), e) {
    } else {
        let t0 = t.drop_last();
        assert(ep_below(t0, n)) by {
            assert(forall|j: int| 0 <= j < t0.len() ==> t0[j] == t[j]);
        }
        lemma_ep_insert_below(t0, e, n);
    }
}

proof fn lemma_ep_sort_below(s: Seq<(int, int)>, n: int)
    requires
        ep_below(s, n),
    ensures
        ep_below(ep_sort(s), n),
    decreases s.len(),
{
    if s.len() == 0 {
    } else {
        let s0 = s.drop_last();
        assert(ep_below(s0, n)) by {
            assert(forall|j: int| 0 <= j < s0.len() ==> s0[j] == s[j]);
        }
        lemma_ep_sort_below(s0, n);
        lemma_ep_insert_below(ep_sort(s0), s.last(), n);
    }
}

/// Largest coordinate magnitude the collision routines accept on input.
pub const INPUT_LIMIT: i64 = 0x1000_0000;

/// Largest coordinate magnitude a reflected displacement may reach; a
/// reflection that would leave this range is dropped and the displacement
/// kept unchanged.
pub const DIR_LIMIT: i64 = 0x100_0000_0000;

/// Mathematical value of a pair list.
pub open spec fn prv(s: Seq<(usize, usize)>) -> Seq<(int, int)> {
    s.map_values(|p: (usize, usize)| (p.0 as int, p.1 as int))
}

/// Index-aligned input slices: positions and displacements within
/// `INPUT_LIMIT`, radii in `[0, INPUT_LIMIT]`.
pub open spec fn inputs_ok(ps: Seq<V2>, ds: Seq<V2>, rs: Seq<int>) -> bool {
    &&& ps.len() == ds.len()
    &&& ps.len() == rs.len()
    &&& forall|i: int| 0 <= i < ps.len() ==> (#[trigger] ps[i]).bounded(INPUT_LIMIT as int)
    &&& forall|i: int| 0 <= i < ds.len() ==> (#[trigger] ds[i]).bounded(INPUT_LIMIT as int)
    &&& forall|i: int| 0 <= i < rs.len() ==> 0 <= #[trigger] rs[i] <= INPUT_LIMIT as int
}

/// Every pair `(a, b)` has `0 <= a < b < n`.
pub open spec fn pairs_wf(s: Seq<(int, int)>, n: int) -> bool {
    forall|j: int| 0 <= j < s.len() ==> 0 <= #[trigger] s[j].0 < s[j].1 < n
}

/// The exact test both broad phases confirm a candidate pair with: the
/// predicted centers are closer than the radii sum.
pub open spec fn overlap(ps: Seq<V2>, ds: Seq<V2>, rs: Seq<int>, i: int, y: int) -> bool {
    let a = ps[i].add(ds[i]);
    let b = ps[y].add(ds[y]);
    a.sub(b).mag2() < (rs[i] + rs[y]) * (rs[i] + rs[y])
}

/// Confirmed pairs `(i, y)` for one fixed `i`, scanning `y` upward from the
/// given start.
pub open spec fn pairs_from(
    ps: Seq<V2>,
    ds: Seq<V2>,
    rs: Seq<int>,
    i: int,
    y: int,
    acc: Seq<(int, int)>,
) -> Seq<(int, int)>
    decreases ps.len() - y,
{
    if y < 0 || y >= ps.len() {
        acc
    } else {
        pairs_from(
            ps,
            ds,
            rs,
            i,
            y + 1,
            if overlap(ps, ds, rs, i, y) {
                acc.push((i, y))
            } else {
                acc
            },
        )
    }
}

/// Confirmed pairs for the candidate indices `cand`, from position `k` on.
pub open spec fn confirm_rest(
    ps: Seq<V2>,
    ds: Seq<V2>,
    rs: Seq<int>,
    cand: Seq<int>,
    k: int,
    acc: Seq<(int, int)>,
) -> Seq<(int, int)>
    decreases cand.len() - k,
{
    if k < 0 || k >= cand.len() {
        acc
    } else {
        confirm_rest(ps, ds, rs, cand, k + 1, pairs_from(ps, ds, rs, cand[k], cand[k] + 1, acc))
    }
}

pub open spec fn confirm_pairs(ps: Seq<V2>, ds: Seq<V2>, rs: Seq<int>, cand: Seq<int>) -> Seq<
    (int, int),
> {
    confirm_rest(ps, ds, rs, cand, 0, Seq::empty())
}

/// Confirmed pairs of the brute-force reference: every `i` is a candidate.
pub open spec fn all_pairs_rest(
    ps: Seq<V2>,
    ds: Seq<V2>,
    rs: Seq<int>,
    i: int,
    acc: Seq<(int, int)>,
) -> Seq<(int, int)>
    decreases ps.len() - i,
{
    if i < 0 || i >= ps.len() {
        acc
    } else {
        all_pairs_rest(ps, ds, rs, i + 1, pairs_from(ps, ds, rs, i, i + 1, acc))
    }
}

pub open spec fn all_pairs(ps: Seq<V2>, ds: Seq<V2>, rs: Seq<int>) -> Seq<(int, int)> {
    all_pairs_rest(ps, ds, rs, 0, Seq::empty())
}

/// The reflection of `d` about the contact axis `g`:
/// `d - 2 (d . g) g / |g|^2`, each coordinate rounded toward zero.
pub open spec fn reflect1(d: V2, g: V2) -> V2 {
    let m = g.mag2();
    let k = d.dot(g);
    V2 { x: d.x - div_tz(2 * k * g.x, m), y: d.y - div_tz(2 * k * g.y, m) }
}

/// The reflection is kept only when it stays within `DIR_LIMIT`; otherwise
/// the displacement is left unchanged.
pub open spec fn reflect_checked(d: V2, g: V2) -> V2 {
    if reflect1(d, g).bounded(DIR_LIMIT as int) {
        reflect1(d, g)
    } else {
        d
    }
}

/// Narrow phase for one confirmed pair: re-verify the overlap with the
/// current displacements, then reflect both sides about the same axis. A
/// coincident pair (zero axis) is skipped.
pub open spec fn narrow_step(ps: Seq<V2>, rs: Seq<int>, ds: Seq<V2>, i: int, y: int) -> Seq<V2> {
    let a = ps[i].add(ds[i]);
    let b = ps[y].add(ds[y]);
    let g = a.sub(b);
    let m = g.mag2();
    if 0 < m && m < (rs[i] + rs[y]) * (rs[i] + rs[y]) {
        ds.update(i, reflect_checked(ds[i], g)).update(y, reflect_checked(ds[y], g))
    } else {
        ds
    }
}

/// The response pass: the confirmed pairs are processed in order, each
/// seeing the displacements the previous ones left.
pub open spec fn response_rest(
    ps: Seq<V2>,
    rs: Seq<int>,
    ds: Seq<V2>,
    pairs: Seq<(int, int)>,
    k: int,
) -> Seq<V2>
    decreases pairs.len() - k,
{
    if k < 0 || k >= pairs.len() {
        ds
    } else {
        response_rest(ps, rs, narrow_step(ps, rs, ds, pairs[k].0, pairs[k].1), pairs, k + 1)
    }
}

pub open spec fn response(ps: Seq<V2>, rs: Seq<int>, ds: Seq<V2>, pairs: Seq<(int, int)>) -> Seq<
    V2,
> {
    response_rest(ps, rs, ds, pairs, 0)
}

/// X-axis interval endpoints: each circle contributes its predicted
/// position plus and minus its radius, in that order.
pub open spec fn endpoints_x(ps: Seq<V2>, ds: Seq<V2>, rs: Seq<int>) -> Seq<(int, int)> {
    Seq::new(
        2 * ps.len(),
        |k: int|
            if k % 2 == 0 {
                (ps[k / 2].x + ds[k / 2].x + rs[k / 2], k / 2)
            } else {
                (ps[k / 2].x + ds[k / 2].x - rs[k / 2], k / 2)
            },
    )
}

/// Y-axis endpoints for the X-axis candidates: position and radius only,
/// with no displacement term.
pub open spec fn endpoints_y(ps: Seq<V2>, rs: Seq<int>, cand: Seq<int>) -> Seq<(int, int)> {
    Seq::new(
        2 * cand.len(),
        |k: int|
            if k % 2 == 0 {
                (ps[cand[k / 2]].y + rs[cand[k / 2]], cand[k / 2])
            } else {
                (ps[cand[k / 2]].y - rs[cand[k / 2]], cand[k / 2])
            },
    )
}

/// The candidate indices the sweep-and-prune broad phase settles on: a
/// bracket sweep over the sorted X endpoints, deduplicated, then the same
/// along Y restricted to those candidates.
pub open spec fn sap_candidates(ps: Seq<V2>, ds: Seq<V2>, rs: Seq<int>) -> Seq<int> {
    let cx = ix_sortu(sweep_all(ep_sort(endpoints_x(ps, ds, rs))));
    ix_sortu(sweep_all(ep_sort(endpoints_y(ps, rs, cx))))
}

/// What `sweep_and_prune` leaves in the displacement slice.
pub open spec fn sweep_and_prune_spec(ps: Seq<V2>, ds: Seq<V2>, rs: Seq<int>) -> Seq<V2> {
    response(ps, rs, ds, confirm_pairs(ps, ds, rs, sap_candidates(ps, ds, rs)))
}

/// What `brute_force_collison` leaves in the displacement slice.
pub open spec fn brute_force_spec(ps: Seq<V2>, ds: Seq<V2>, rs: Seq<int>) -> Seq<V2> {
    response(ps, rs, ds, all_pairs(ps, ds, rs))
}

/// Narrow-phase reflection preserves speed: with the rounding division's
/// denominator cleared, reflecting a displacement `d` about a contact axis
/// `g` keeps its squared magnitude exactly. The executable reflection in
/// `reflect1` differs from this exact form only by the final rounding
/// toward zero, so its speed is preserved to within that rounding.
proof fn lemma_reflect_rx(dx: int, dy: int, gx: int, gy: int) by (nonlinear_arith)
    ensures
        dx * (gx * gx + gy * gy) - 2 * (dx * gx + dy * gy) * gx == -((gx * gx - gy * gy) * dx + (
        2 * gx * gy) * dy),
        dy * (gx * gx + gy * gy) - 2 * (dx * gx + dy * gy) * gy == -((2 * gx * gy) * dx - (gx * gx
            - gy * gy) * dy),
{
}

proof fn lemma_sq_expand(a: int, b: int) by (nonlinear_arith)
    ensures
        (a + b) * (a + b) == a * a + 2 * (a * b) + b * b,
        (a - b) * (a - b) == a * a - 2 * (a * b) + b * b,
{
}

proof fn lemma_dist2(a: int, b: int, c: int, d: int) by (nonlinear_arith)
    ensures
        (a + b) * (c + d) == a * c + a * d + b * c + b * d,
{
}

proof fn lemma_mul_swap(a: int, b: int, c: int, d: int) by (nonlinear_arith)
    ensures
        (a * b) * (c * d) == (a * c) * (b * d),
{
}

proof fn lemma_two_squares(px: int, py: int, dx: int, dy: int)
    ensures
        (px * dx + py * dy) * (px * dx + py * dy) + (py * dx - px * dy) * (py * dx - px * dy) == (
        px * px + py * py) * (dx * dx + dy * dy),
{
    lemma_sq_expand(px * dx, py * dy);
    lemma_sq_expand(py * dx, px * dy);
    lemma_dist2(px * px, py * py, dx * dx, dy * dy);
    lemma_mul_swap(px, px, dx, dx);
    lemma_mul_swap(px, px, dy, dy);
    lemma_mul_swap(py, py, dx, dx);
    lemma_mul_swap(py, py, dy, dy);
    lemma_mul_swap(px, dx, py, dy);
    lemma_mul_swap(py, dx, px, dy);
    assert((px * py) * (dx * dy) == (py * px) * (dx * dy)) by (nonlinear_arith);
}

proof fn lemma_square_norm(gx: int, gy: int) by (nonlinear_arith)
    ensures
        (gx * gx - gy * gy) * (gx * gx - gy * gy) + (2 * gx * gy) * (2 * gx * gy) == (gx * gx + gy
            * gy) * (gx * gx + gy * gy),
{
}

proof fn lemma_neg_square(a: int) by (nonlinear_arith)
    ensures
        (-a) * (-a) == a * a,
{
}

/// Narrow-phase reflection preserves speed: with the rounding division's
/// denominator cleared, reflecting a displacement `d` about a contact axis
/// `g` keeps its squared magnitude exactly. The executable reflection in
/// `reflect1` differs from this exact form only by the final rounding
/// toward zero, so its speed is preserved to within that rounding.
pub proof fn lemma_reflect_preserves_speed(d: V2, g: V2)
    ensures
        (d.x * g.mag2() - 2 * d.dot(g) * g.x) * (d.x * g.mag2() - 2 * d.dot(g) * g.x) + (d.y
            * g.mag2() - 2 * d.dot(g) * g.y) * (d.y * g.mag2() - 2 * d.dot(g) * g.y) == g.mag2()
            * g.mag2() * d.mag2(),
{
    let dx = d.x;
    let dy = d.y;
    let gx = g.x;
    let gy = g.y;
    let px = gx * gx - gy * gy;
    let py = 2 * gx * gy;
    let rx = dx * (gx * gx + gy * gy) - 2 * (dx * gx + dy * gy) * gx;
    let ry = dy * (gx * gx + gy * gy) - 2 * (dx * gx + dy * gy) * gy;
    lemma_reflect_rx(dx, dy, gx, gy);
    assert(rx == -(px * dx + py * dy));
    assert(ry == -(py * dx - px * dy));
    lemma_neg_square(px * dx + py * dy);
    lemma_neg_square(py * dx - px * dy);
    lemma_two_squares(px, py, dx, dy);
    lemma_square_norm(gx, gy);
    assert(rx * rx + ry * ry == (px * px + py * py) * (dx * dx + dy * dy));
    assert(px * px + py * py == (gx * gx + gy * gy) * (gx * gx + gy * gy));
    assert(rx * rx + ry * ry == g.mag2() * g.mag2() * d.mag2()) by {
        assert(g.mag2() == gx * gx + gy * gy);
        assert(d.mag2() == dx * dx + dy * dy);
        assert(((gx * gx + gy * gy) * (gx * gx + gy * gy)) * (dx * dx + dy * dy) == (gx * gx + gy
            * gy) * (gx * gx + gy * gy) * (dx * dx + dy * dy)) by (nonlinear_arith);
    }
}

/// Every displacement bounded by `b`.
pub open spec fn dirs_bounded(ds: Seq<V2>, b: int) -> bool {
    forall|i: int| 0 <= i < ds.len() ==> (#[trigger] ds[i]).bounded(b)
}

/// Positions within `INPUT_LIMIT` and radii in `[0, INPUT_LIMIT]`, index
/// aligned.
pub open spec fn pos_rad_ok(ps: Seq<V2>, rs: Seq<int>) -> bool {
    &&& ps.len() == rs.len()
    &&& forall|i: int| 0 <= i < ps.len() ==> (#[trigger] ps[i]).bounded(INPUT_LIMIT as int)
    &&& forall|i: int| 0 <= i < rs.len() ==> 0 <= #[trigger] rs[i] <= INPUT_LIMIT as int
}

fn overlap_exec(positions: &Vec<Vec2>, dirs: &Vec<Vec2>, rads: &Vec<i64>, i: usize, y: usize) -> (r:
    bool)
    requires
        inputs_ok(v2v(positions@), v2v(dirs@), radv(rads@)),
        i < positions@.len(),
        y < positions@.len(),
    ensures
        r == overlap(v2v(positions@), v2v(dirs@), radv(rads@), i as int, y as int),
{
    proof {
        assert(v2v(positions@)[i as int] == positions@[i as int]@);
        assert(v2v(positions@)[y as int] == positions@[y as int]@);
        assert(v2v(dirs@)[i as int] == dirs@[i as int]@);
        assert(v2v(dirs@)[y as int] == dirs@[y as int]@);
        assert(radv(rads@)[i as int] == rads@[i as int] as int);
        assert(radv(rads@)[y as int] == rads@[y as int] as int);
    }
    let a = positions[i].add(dirs[i]);
    let b = positions[y].add(dirs[y]);
    let g = a.sub(b);
    let m = g.mag2();
    let rsum = rads[i] + rads[y];
    proof {
        crate::fixed::lemma_mul_bound(rsum as int, rsum as int, 0x2000_0000, 0x2000_0000);
    }
    m < rsum * rsum
}

/// Confirms candidate pairs: each candidate `i` is tested against every
/// circle with a larger index, by the exact overlap test.
fn confirm_candidates(
    positions: &Vec<Vec2>,
    dirs: &Vec<Vec2>,
    rads: &Vec<i64>,
    cand: &Vec<usize>,
) -> (out: Vec<(usize, usize)>)
    requires
        inputs_ok(v2v(positions@), v2v(dirs@), radv(rads@)),
        ix_below(idxv(cand@), positions@.len() as int),
    ensures
        prv(out@) == confirm_pairs(v2v(positions@), v2v(dirs@), radv(rads@), idxv(cand@)),
        pairs_wf(prv(out@), positions@.len() as int),
{
    let ghost ps = v2v(positions@);
    let ghost ds = v2v(dirs@);
    let ghost rs = radv(rads@);
    let ghost cv = idxv(cand@);
    let n = positions.len();
    let mut out: Vec<(usize, usize)> = Vec::new();
    assert(prv(out@) =~= Seq::<(int, int)>::empty());
    let mut k: usize = 0;
    while k < cand.len()
        invariant
            k <= cand@.len(),
            n == positions@.len(),
            ps == v2v(positions@),
            ds == v2v(dirs@),
            rs == radv(rads@),
            cv == idxv(cand@),
            inputs_ok(ps, ds, rs),
            ix_below(cv, n as int),
            confirm_rest(ps, ds, rs, cv, k as int, prv(out@)) == confirm_pairs(ps, ds, rs, cv),
            pairs_wf(prv(out@), n as int),
        decreases cand@.len() - k,
    {
        let i = cand[k];
        assert(0 <= cv[k as int] < n);
        let mut y = i + 1;
        while y < n
            invariant
                k < cand@.len(),
                i == cand@[k as int],
                i < n,
                i < y <= n,
                n == positions@.len(),
                ps == v2v(positions@),
                ds == v2v(dirs@),
                rs == radv(rads@),
                cv == idxv(cand@),
                inputs_ok(ps, ds, rs),
                confirm_rest(ps, ds, rs, cv, k + 1, pairs_from(ps, ds, rs, i as int, y as int, prv(out@)))
                    == confirm_pairs(ps, ds, rs, cv),
                pairs_wf(prv(out@), n as int),
            decreases n - y,
        {
            let ghost acc0 = prv(out@);
            if overlap_exec(positions, dirs, rads, i, y) {
                out.push((i, y));
                assert(prv(out@) =~= acc0.push((i as int, y as int)));
            }
            proof {
                assert(pairs_from(ps, ds, rs, i as int, y as int, acc0) == pairs_from(
                    ps,
                    ds,
                    rs,
                    i as int,
                    y + 1,
                    prv(out@),
                ));
            }
            y += 1;
        }
        k += 1;
    }
    out
}

/// Confirms every pair, the brute-force reference's candidate generation.
fn confirm_all_exec(positions: &Vec<Vec2>, dirs: &Vec<Vec2>, rads: &Vec<i64>) -> (out: Vec<
    (usize, usize),
>)
    requires
        inputs_ok(v2v(positions@), v2v(dirs@), radv(rads@)),
    ensures
        prv(out@) == all_pairs(v2v(positions@), v2v(dirs@), radv(rads@)),
        pairs_wf(prv(out@), positions@.len() as int),
{
    let ghost ps = v2v(positions@);
    let ghost ds = v2v(dirs@);
    let ghost rs = radv(rads@);
    let n = positions.len();
    let mut out: Vec<(usize, usize)> = Vec::new();
    assert(prv(out@) =~= Seq::<(int, int)>::empty());
    let mut i: usize = 0;
    while i < n
        invariant
            i <= n,
            n == positions@.len(),
            ps == v2v(positions@),
            ds == v2v(dirs@),
            rs == radv(rads@),
            inputs_ok(ps, ds, rs),
            all_pairs_rest(ps, ds, rs, i as int, prv(out@)) == all_pairs(ps, ds, rs),
            pairs_wf(prv(out@), n as int),
        decreases n - i,
    {
        let mut y = i + 1;
        while y < n
            invariant
                i < y <= n,
                i < n,
                n == positions@.len(),
                ps == v2v(positions@),
                ds == v2v(dirs@),
                rs == radv(rads@),
                inputs_ok(ps, ds, rs),
                all_pairs_rest(ps, ds, rs, i + 1, pairs_from(ps, ds, rs, i as int, y as int, prv(out@)))
                    == all_pairs(ps, ds, rs),
                pairs_wf(prv(out@), n as int),
            decreases n - y,
        {
            let ghost acc0 = prv(out@);
            if overlap_exec(positions, dirs, rads, i, y) {
                out.push((i, y));
                assert(prv(out@) =~= acc0.push((i as int, y as int)));
            }
            proof {
                assert(pairs_from(ps, ds, rs, i as int, y as int, acc0) == pairs_from(
                    ps,
                    ds,
                    rs,
                    i as int,
                    y + 1,
                    prv(out@),
                ));
            }
            y += 1;
        }
        i += 1;
    }
    out
}

/// Applies the narrow-phase response to each confirmed pair in order.
fn response_pass(
    positions: &Vec<Vec2>,
    rads: &Vec<i64>,
    dirs: &mut Vec<Vec2>,
    colliders: &Vec<(usize, usize)>,
)
    requires
        pos_rad_ok(v2v(positions@), radv(rads@)),
        old(dirs)@.len() == positions@.len(),
        dirs_bounded(v2v(old(dirs)@), DIR_LIMIT as int),
        pairs_wf(prv(colliders@), positions@.len() as int),
    ensures
        v2v(final(dirs)@) == response(
            v2v(positions@),
            radv(rads@),
            v2v(old(dirs)@),
            prv(colliders@),
        ),
        final(dirs)@.len() == old(dirs)@.len(),
        dirs_bounded(v2v(final(dirs)@), DIR_LIMIT as int),
{
    let ghost ps = v2v(positions@);
    let ghost rs = radv(rads@);
    let ghost pv = prv(colliders@);
    let n = positions.len();
    let mut k: usize = 0;
    while k < colliders.len()
        invariant
            k <= colliders@.len(),
            n == positions@.len(),
            ps == v2v(positions@),
            rs == radv(rads@),
            pv == prv(colliders@),
            pos_rad_ok(ps, rs),
            dirs@.len() == n,
            dirs_bounded(v2v(dirs@), DIR_LIMIT as int),
            pairs_wf(pv, n as int),
            response_rest(ps, rs, v2v(dirs@), pv, k as int) == response(
                ps,
                rs,
                v2v(old(dirs)@),
                pv,
            ),
        decreases colliders@.len() - k,
    {
        let ghost ds0 = v2v(dirs@);
        let pair = colliders[k];
        let i = pair.0;
        let y = pair.1;
        assert(0 <= pv[k as int].0 < pv[k as int].1 < n);
        proof {
            assert(ps[i as int] == positions@[i as int]@);
            assert(ps[y as int] == positions@[y as int]@);
            assert(rs[i as int] == rads@[i as int] as int);
            assert(rs[y as int] == rads@[y as int] as int);
            assert(ds0[i as int] == dirs@[i as int]@);
            assert(ds0[y as int] == dirs@[y as int]@);
        }
        let di = dirs[i];
        let dy = dirs[y];
        let a = positions[i].add(di);
        let b = positions[y].add(dy);
        let g = a.sub(b);
        proof {
            assert(g@.bounded(0x200_4000_0000));
            crate::fixed::lemma_mul_bound(g.x as int, g.x as int, 0x400_0000_0000, 0x400_0000_0000);
            crate::fixed::lemma_mul_bound(g.y as int, g.y as int, 0x400_0000_0000, 0x400_0000_0000);
        }
        let m: i128 = (g.x as i128) * (g.x as i128) + (g.y as i128) * (g.y as i128);
        assert(m as int == g@.mag2());
        let rsum = rads[i] + rads[y];
        proof {
            crate::fixed::lemma_mul_bound(rsum as int, rsum as int, 0x2000_0000, 0x2000_0000);
        }
        let rr: i128 = (rsum as i128) * (rsum as i128);
        if 0 < m && m < rr {
            proof {
                crate::fixed::lemma_mul_bound(di.x as int, g.x as int, DIR_LIMIT as int, 0x400_0000_0000);
                crate::fixed::lemma_mul_bound(di.y as int, g.y as int, DIR_LIMIT as int, 0x400_0000_0000);
                crate::fixed::lemma_mul_bound(dy.x as int, g.x as int, DIR_LIMIT as int, 0x400_0000_0000);
                crate::fixed::lemma_mul_bound(dy.y as int, g.y as int, DIR_LIMIT as int, 0x400_0000_0000);
            }
            let ki: i128 = (di.x as i128) * (g.x as i128) + (di.y as i128) * (g.y as i128);
            let ky: i128 = (dy.x as i128) * (g.x as i128) + (dy.y as i128) * (g.y as i128);
            proof {
                crate::fixed::lemma_mul_bound(2 * (ki as int), g.x as int, (0x8000_0000_0000_0000 * 0x20_0000) as int, 0x400_0000_0000);
                crate::fixed::lemma_mul_bound(2 * (ki as int), g.y as int, (0x8000_0000_0000_0000 * 0x20_0000) as int, 0x400_0000_0000);
                crate::fixed::lemma_mul_bound(2 * (ky as int), g.x as int, (0x8000_0000_0000_0000 * 0x20_0000) as int, 0x400_0000_0000);
                crate::fixed::lemma_mul_bound(2 * (ky as int), g.y as int, (0x8000_0000_0000_0000 * 0x20_0000) as int, 0x400_0000_0000);
            }
            let nix: i128 = (di.x as i128) - crate::fixed::div_tz_i128(2 * ki * (g.x as i128), m);
            let niy: i128 = (di.y as i128) - crate::fixed::div_tz_i128(2 * ki * (g.y as i128), m);
            let nyx: i128 = (dy.x as i128) - crate::fixed::div_tz_i128(2 * ky * (g.x as i128), m);
            let nyy: i128 = (dy.y as i128) - crate::fixed::div_tz_i128(2 * ky * (g.y as i128), m);
            let lim: i128 = DIR_LIMIT as i128;
            assert(ki as int == ds0[i as int].dot(g@));
            assert(ky as int == ds0[y as int].dot(g@));
            assert(nix as int == reflect1(ds0[i as int], g@).x);
            assert(niy as int == reflect1(ds0[i as int], g@).y);
            assert(nyx as int == reflect1(ds0[y as int], g@).x);
            assert(nyy as int == reflect1(ds0[y as int], g@).y);
            if -lim <= nix && nix <= lim && -lim <= niy && niy <= lim {
                dirs[i] = Vec2 { x: nix as i64, y: niy as i64 };
            }
            if -lim <= nyx && nyx <= lim && -lim <= nyy && nyy <= lim {
                dirs[y] = Vec2 { x: nyx as i64, y: nyy as i64 };
            }
            assert(v2v(dirs@) =~= ds0.update(i as int, reflect_checked(ds0[i as int], g@)).update(
                y as int,
                reflect_checked(ds0[y as int], g@),
            ));
            assert(v2v(dirs@) == narrow_step(ps, rs, ds0, pv[k as int].0, pv[k as int].1));
        } else {
            assert(v2v(dirs@) == narrow_step(ps, rs, ds0, pv[k as int].0, pv[k as int].1));
        }
        proof {
            assert(response_rest(ps, rs, ds0, pv, k as int) == response_rest(
                ps,
                rs,
                v2v(dirs@),
                pv,
                k + 1,
            ));
        }
        k += 1;
    }
    assert(v2v(dirs@) =~= response(ps, rs, v2v(old(dirs)@), pv));
}

/// Runs the bracket sweep over a sorted endpoint list.
fn sweep_exec(s: &Vec<(i64, usize)>, n: usize) -> (out: Vec<usize>)
    requires
        ep_below(epv(s@), n as int),
    ensures
        idxv(out@) == sweep_all(epv(s@)),
        ix_below(idxv(out@), n as int),
        out@.len() <= s@.len(),
{
    let ghost sv = epv(s@);
    let mut out: Vec<usize> = Vec::new();
    assert(idxv(out@) =~= Seq::<int>::empty());
    let mut k: usize = 0;
    while k < s.len()
        invariant
            k <= s@.len(),
            sv == epv(s@),
            ep_below(sv, n as int),
            sweep_rest(sv, k as int, idxv(out@)) == sweep_all(sv),
            ix_below(idxv(out@), n as int),
            out@.len() <= k,
        decreases s@.len() - k,
    {
        let e = s[k];
        let ghost acc0 = idxv(out@);
        assert(sv[k as int].1 == e.1 as int);
        if out.len() > 0 {
            let last = out[out.len() - 1];
            if e.1 == last {
                out.pop();
                assert(idxv(out@) =~= acc0.drop_last());
            } else {
                out.push(e.1);
                assert(idxv(out@) =~= acc0.push(e.1 as int));
            }
        } else {
            out.push(e.1);
            assert(idxv(out@) =~= acc0.push(e.1 as int));
        }
        proof {
            assert(idxv(out@) == sweep_step(acc0, sv[k as int].1));
            assert(sweep_rest(sv, k as int, acc0) == sweep_rest(sv, k + 1, idxv(out@)));
            assert(ix_below(idxv(out@), n as int)) by {
                assert(forall|j: int|
                    0 <= j < acc0.len() - 1 ==> acc0.drop_last()[j] == acc0[j]);
            }
        }
        k += 1;
    }
    out
}

/// Sorts an index list and drops duplicates.
fn sortu_exec(v: &Vec<usize>, n: usize) -> (out: Vec<usize>)
    requires
        ix_below(idxv(v@), n as int),
        v@.len() < 0xffff_ffff,
    ensures
        idxv(out@) == ix_sortu(idxv(v@)),
        ix_sorted(idxv(out@)),
        ix_below(idxv(out@), n as int),
        out@.len() <= v@.len(),
{
    let ghost vv = idxv(v@);
    let mut out: Vec<usize> = Vec::new();
    assert(idxv(out@) =~= Seq::<int>::empty());
    let mut j: usize = 0;
    while j < v.len()
        invariant
            j <= v@.len(),
            vv == idxv(v@),
            v@.len() < 0xffff_ffff,
            out@.len() <= j,
            ix_below(vv, n as int),
            idxv(out@) == ix_sortu(vv.take(j as int)),
            ix_sorted(idxv(out@)),
            ix_below(idxv(out@), n as int),
        decreases v@.len() - j,
    {
        let ghost prev = idxv(out@);
        ix_insert_exec(&mut out, v[j]);
        proof {
            assert(vv.take(j + 1).drop_last() =~= vv.take(j as int));
            assert(vv.take(j + 1).last() == v@[j as int] as int);
            lemma_ix_insert_below(prev, v@[j as int] as int, n as int);
        }
        j += 1;
    }
    proof {
        assert(vv.take(vv.len() as int) =~= vv);
    }
    out
}

/// Broad-phase sweep-and-prune culling followed by the narrow-phase
/// response: endpoints are swept along X, then along Y restricted to the X
/// candidates, surviving candidates are confirmed pairwise by the exact
/// distance test, and each confirmed pair's displacements are reflected.
/// Only `dirs` is mutated, exactly as `sweep_and_prune_spec` states.
pub fn sweep_and_prune(positions: &Vec<Vec2>, dirs: &mut Vec<Vec2>, rads: &Vec<i64>)
    requires
        inputs_ok(v2v(positions@), v2v(old(dirs)@), radv(rads@)),
        positions@.len() <= 0x10_0000,
    ensures
        v2v(final(dirs)@) == sweep_and_prune_spec(
            v2v(positions@),
            v2v(old(dirs)@),
            radv(rads@),
        ),
        final(dirs)@.len() == old(dirs)@.len(),
        dirs_bounded(v2v(final(dirs)@), DIR_LIMIT as int),
{
    let ghost ps = v2v(positions@);
    let ghost ds0 = v2v(old(dirs)@);
    let ghost rs = radv(rads@);
    let n = positions.len();

    let mut xx: Vec<(i64, usize)> = Vec::new();
    let mut i: usize = 0;
    while i < n
        invariant
            i <= n,
            n == positions@.len(),
            ps == v2v(positions@),
            ds0 == v2v(dirs@),
            rs == radv(rads@),
            dirs@ == old(dirs)@,
            inputs_ok(ps, ds0, rs),
            xx@.len() == 2 * i,
            epv(xx@) == endpoints_x(ps, ds0, rs).take(2 * (i as int)),
        decreases n - i,
    {
        proof {
            assert(ps[i as int] == positions@[i as int]@);
            assert(ds0[i as int] == dirs@[i as int]@);
            assert(rs[i as int] == rads@[i as int] as int);
        }
        let p = positions[i];
        let d = dirs[i];
        let r = rads[i];
        xx.push((p.x + d.x + r, i));
        xx.push((p.x + d.x - r, i));
        proof {
            assert(epv(xx@) =~= endpoints_x(ps, ds0, rs).take(2 * (i + 1)));
        }
        i += 1;
    }
    proof {
        assert(epv(xx@) =~= endpoints_x(ps, ds0, rs));
        assert(ep_below(epv(xx@), n as int));
        lemma_ep_sort_below(epv(xx@), n as int);
    }
    let sx = sort_eps(&xx);
    let c1 = sweep_exec(&sx, n);
    let cx = sortu_exec(&c1, n);

    let mut yy: Vec<(i64, usize)> = Vec::new();
    let mut j: usize = 0;
    while j < cx.len()
        invariant
            j <= cx@.len(),
            n == positions@.len(),
            ps == v2v(positions@),
            rs == radv(rads@),
            inputs_ok(ps, ds0, rs),
            ix_below(idxv(cx@), n as int),
            yy@.len() == 2 * j,
            epv(yy@) == endpoints_y(ps, rs, idxv(cx@)).take(2 * (j as int)),
        decreases cx@.len() - j,
    {
        let ci = cx[j];
        assert(0 <= idxv(cx@)[j as int] < n);
        proof {
            assert(ps[ci as int] == positions@[ci as int]@);
            assert(rs[ci as int] == rads@[ci as int] as int);
        }
        yy.push((positions[ci].y + rads[ci], ci));
        yy.push((positions[ci].y - rads[ci], ci));
        proof {
            assert(epv(yy@) =~= endpoints_y(ps, rs, idxv(cx@)).take(2 * (j + 1)));
        }
        j += 1;
    }
    proof {
        assert(epv(yy@) =~= endpoints_y(ps, rs, idxv(cx@)));
        assert(ep_below(epv(yy@), n as int));
        lemma_ep_sort_below(epv(yy@), n as int);
    }
    let sy = sort_eps(&yy);
    let c2 = sweep_exec(&sy, n);
    let cand = sortu_exec(&c2, n);
    assert(idxv(cand@) == sap_candidates(ps, ds0, rs));

    let colliders = confirm_candidates(positions, dirs, rads, &cand);
    proof {
        assert(dirs_bounded(v2v(dirs@), DIR_LIMIT as int)) by {
            assert(forall|q: int|
                0 <= q < n ==> (#[trigger] v2v(dirs@)[q]).bounded(INPUT_LIMIT as int));
        }
    }
    response_pass(positions, rads, dirs, &colliders);
}

/// The brute-force reference: every pair is confirmed by the same exact
/// distance test and handed to the same response pass as the broad phase.
pub fn brute_force_collison(positions: &Vec<Vec2>, dirs: &mut Vec<Vec2>, rads: &Vec<i64>)
    requires
        inputs_ok(v2v(positions@), v2v(old(dirs)@), radv(rads@)),
    ensures
        v2v(final(dirs)@) == brute_force_spec(v2v(positions@), v2v(old(dirs)@), radv(rads@)),
        final(dirs)@.len() == old(dirs)@.len(),
        dirs_bounded(v2v(final(dirs)@), DIR_LIMIT as int),
{
    let ghost ps = v2v(positions@);
    let ghost ds0 = v2v(old(dirs)@);
    let ghost rs = radv(rads@);
    let colliders = confirm_all_exec(positions, dirs, rads);
    proof {
        assert(dirs_bounded(v2v(dirs@), DIR_LIMIT as int)) by {
            assert(forall|q: int|
                0 <= q < ds0.len() ==> (#[trigger] v2v(dirs@)[q]).bounded(INPUT_LIMIT as int));
        }
    }
    response_pass(positions, rads, dirs, &colliders);
}

/// What boundary containment does to one circle: predict the next position
/// and flip each displacement axis whose predicted interval leaves the box,
/// independently of the other axis.
pub open spec fn bounce_one(p: V2, d: V2, r: int, bound: V2) -> V2 {
    let tx = p.x + d.x;
    let ty = p.y + d.y;
    V2 {
        x: if tx - r < 0 || tx + r > bound.x {
            -d.x
        } else {
            d.x
        },
        y: if ty - r < 0 || ty + r > bound.y {
            -d.y
        } else {
            d.y
        },
    }
}

pub open spec fn bounce_all(ps: Seq<V2>, ds: Seq<V2>, rs: Seq<int>, bound: V2) -> Seq<V2> {
    Seq::new(ds.len(), |i: int| bounce_one(ps[i], ds[i], rs[i], bound))
}

/// Keeps each circle inside the box `[0, bound.x] x [0, bound.y]` by
/// flipping the offending displacement axes, as `bounce_all` states.
pub fn prevent_out_of_bound(
    positions: &Vec<Vec2>,
    dirs: &mut Vec<Vec2>,
    rads: &Vec<i64>,
    bound: Vec2,
)
    requires
        inputs_ok(v2v(positions@), v2v(old(dirs)@), radv(rads@)),
    ensures
        v2v(final(dirs)@) == bounce_all(v2v(positions@), v2v(old(dirs)@), radv(rads@), bound@),
        final(dirs)@.len() == old(dirs)@.len(),
{
    let ghost ps = v2v(positions@);
    let ghost ds0 = v2v(old(dirs)@);
    let ghost rs = radv(rads@);
    let n = positions.len();
    let mut i: usize = 0;
    while i < n
        invariant
            i <= n,
            n == positions@.len(),
            ps == v2v(positions@),
            rs == radv(rads@),
            dirs@.len() == n,
            inputs_ok(ps, ds0, rs),
            forall|q: int| i <= q < n ==> v2v(dirs@)[q] == ds0[q],
            forall|q: int|
                0 <= q < i ==> v2v(dirs@)[q] == bounce_one(ps[q], ds0[q], rs[q], bound@),
        decreases n - i,
    {
        proof {
            assert(ps[i as int] == positions@[i as int]@);
            assert(v2v(dirs@)[i as int] == dirs@[i as int]@);
            assert(v2v(dirs@)[i as int] == ds0[i as int]);
            assert(ds0[i as int].bounded(INPUT_LIMIT as int));
            assert(ps[i as int].bounded(INPUT_LIMIT as int));
            assert(rs[i as int] == rads@[i as int] as int);
        }
        let p = positions[i];
        let d = dirs[i];
        let r = rads[i];
        let tx = p.x + d.x;
        let ty = p.y + d.y;
        let nx = if tx - r < 0 || tx + r > bound.x {
            -d.x
        } else {
            d.x
        };
        let ny = if ty - r < 0 || ty + r > bound.y {
            -d.y
        } else {
            d.y
        };
        let ghost before = v2v(dirs@);
        dirs[i] = Vec2 { x: nx, y: ny };
        proof {
            assert(v2v(dirs@)[i as int] == bounce_one(
                ps[i as int],
                ds0[i as int],
                rs[i as int],
                bound@,
            ));
            assert(forall|q: int| 0 <= q < n && q != i ==> v2v(dirs@)[q] == before[q]);
            assert forall|q: int| 0 <= q < i + 1 implies v2v(dirs@)[q] == bounce_one(
                ps[q],
                ds0[q],
                rs[q],
                bound@,
            ) by {
                if q < i {
                    assert(v2v(dirs@)[q] == before[q]);
                }
            }
        }
        i += 1;
    }
    assert(v2v(dirs@) =~= bounce_all(ps, ds0, rs, bound@));
}

} // verus!
