use crate::direction::Direction;
use crate::fixed_map::FixedMap2D;
use crate::map::Point2D;
use crate::randomness::{usize_sum, weighted_index};
use crate::rotated_tile::{lemma_connects_symmetric, RotatedTile};
use crate::rotation::Rotation;
use crate::tile::Tile;
use itertools::Itertools;
use vstd::prelude::*;

verus! {

/// The solved map: one optional oriented tile per cell.
pub type TileMap = FixedMap2D<Option<RotatedTile>>;

/// The candidate map: per cell, the oriented tiles not yet ruled out.
pub type CandidateMap = FixedMap2D<Vec<RotatedTile>>;

/// The cell of the solved map at `p`.
pub open spec fn cell_at(m: TileMap, p: Point2D) -> Option<RotatedTile> {
    m.cells()[m.idx_spec(p)]
}

/// The candidate set of the candidate map at `p`.
pub open spec fn cand_at(cm: CandidateMap, p: Point2D) -> Seq<RotatedTile> {
    cm.cells()[cm.idx_spec(p)]@
}

/// Whether `q` is the neighbour of `p` one step in direction `d`.
pub open spec fn adjacent(p: Point2D, q: Point2D, d: Direction) -> bool {
    &&& (q.0 as int) == (p.0 as int) + d.step_spec().0
    &&& (q.1 as int) == (p.1 as int) + d.step_spec().1
}

/// No two adjacent resolved cells disagree on the feature of their shared
/// edge.
pub open spec fn consistent(m: TileMap) -> bool {
    forall|p: Point2D, q: Point2D, d: Direction|
        #![trigger cell_at(m, p), cell_at(m, q), d.step_spec()]
        m.in_bounds_spec(p) && m.in_bounds_spec(q) && adjacent(p, q, d) && cell_at(m, p) is Some
            && cell_at(m, q) is Some ==> cell_at(m, p)->Some_0.connects_spec(
            cell_at(m, q)->Some_0,
            d,
        )
}

/// Entropy of a candidate set: the sum of the occurrence weights of its
/// members.
pub open spec fn entropy_spec(s: Seq<RotatedTile>) -> nat
    decreases s.len(),
{
    if s.len() == 0 {
        0
    } else {
        s[0].tile_spec().weight_spec() + entropy_spec(s.drop_first())
    }
}

/// Splitting off the last entry splits the entropy.
pub proof fn lemma_entropy_last(s: Seq<RotatedTile>)
    requires
        s.len() > 0,
    ensures
        entropy_spec(s) == entropy_spec(s.drop_last()) + s.last().tile_spec().weight_spec(),
    decreases s.len(),
{
    if s.len() > 1 {
        lemma_entropy_last(s.drop_first());
        assert(s.drop_first().drop_last() =~= s.drop_last().drop_first());
        assert(s.last() == s.drop_first().last());
        assert(s.drop_last()[0] == s[0]);
        assert(entropy_spec(s.drop_last()) == s.drop_last()[0].tile_spec().weight_spec()
            + entropy_spec(s.drop_last().drop_first()));
    } else {
        assert(s.drop_last() =~= Seq::<RotatedTile>::empty());
        assert(s.drop_first() =~= Seq::<RotatedTile>::empty());
    }
    assert(entropy_spec(s) == s[0].tile_spec().weight_spec() + entropy_spec(s.drop_first()));
}

/// The entropy of a prefix never exceeds the entropy of the whole.
pub proof fn lemma_entropy_take_le(s: Seq<RotatedTile>, i: int)
    requires
        0 <= i <= s.len(),
    ensures
        entropy_spec(s.take(i)) <= entropy_spec(s),
    decreases s.len() - i,
{
    if i == s.len() {
        assert(s.take(i) =~= s);
    } else {
        lemma_entropy_take_le(s, i + 1);
        assert(s.take(i + 1).drop_last() =~= s.take(i));
        lemma_entropy_last(s.take(i + 1));
    }
}

/// Entropy is additive over concatenation of candidate lists.
pub proof fn lemma_entropy_concat(a: Seq<RotatedTile>, b: Seq<RotatedTile>)
    ensures
        entropy_spec(a + b) == entropy_spec(a) + entropy_spec(b),
    decreases a.len(),
{
    if a.len() == 0 {
        assert(a + b =~= b);
    } else {
        lemma_entropy_concat(a.drop_first(), b);
        assert((a + b).drop_first() =~= a.drop_first() + b);
        assert((a + b)[0] == a[0]);
    }
}

/// Dropping one candidate lowers the entropy by exactly that candidate's
/// weight; since a cell's candidate set only ever shrinks while the cell is
/// unresolved, its entropy never increases over a run.
pub proof fn lemma_entropy_remove(s: Seq<RotatedTile>, i: int)
    requires
        0 <= i < s.len(),
    ensures
        entropy_spec(s.remove(i)) + s[i].tile_spec().weight_spec() == entropy_spec(s),
        entropy_spec(s.remove(i)) <= entropy_spec(s),
{
    let pre = s.subrange(0, i);
    let mid = s.subrange(i, i + 1);
    let post = s.subrange(i + 1, s.len() as int);
    assert(s =~= pre + mid + post);
    lemma_entropy_concat(pre + mid, post);
    lemma_entropy_concat(pre, mid);
    lemma_entropy_concat(pre, post);
    assert(mid.drop_first() =~= Seq::<RotatedTile>::empty());
    assert(mid[0] == s[i]);
    assert(entropy_spec(mid.drop_first()) == 0);
    assert(entropy_spec(mid) == mid[0].tile_spec().weight_spec() + entropy_spec(
        mid.drop_first(),
    ));
    assert(s.remove(i) =~= pre + post);
}

/// The entropy of a candidate set is at most nine per member.
pub proof fn lemma_entropy_le_nine_len(s: Seq<RotatedTile>)
    ensures
        entropy_spec(s) <= 9 * s.len(),
    decreases s.len(),
{
    if s.len() > 0 {
        lemma_entropy_le_nine_len(s.drop_first());
    }
}

/// A weight list that matches a candidate list entry by entry sums to that
/// candidate list's entropy.
proof fn lemma_weights_sum_entropy(ws: Seq<usize>, cs: Seq<RotatedTile>)
    requires
        ws.len() == cs.len(),
        forall|i: int| 0 <= i < ws.len() ==> #[trigger] ws[i] == cs[i].tile_spec().weight_spec(),
    ensures
        usize_sum(ws) == entropy_spec(cs),
    decreases ws.len(),
{
    if ws.len() > 0 {
        lemma_weights_sum_entropy(ws.drop_first(), cs.drop_first());
    }
}

/// Number of unresolved cells of a solved-map buffer.
pub open spec fn unresolved_count(cells: Seq<Option<RotatedTile>>) -> nat
    decreases cells.len(),
{
    if cells.len() == 0 {
        0
    } else {
        (if cells[0] is None {
            1nat
        } else {
            0nat
        }) + unresolved_count(cells.drop_first())
    }
}

/// Total number of candidates of a candidate-map buffer.
pub open spec fn total_cands(cells: Seq<Vec<RotatedTile>>) -> nat
    decreases cells.len(),
{
    if cells.len() == 0 {
        0
    } else {
        cells[0]@.len() + total_cands(cells.drop_first())
    }
}

/// How an update of one cell changes the unresolved count.
pub proof fn lemma_unresolved_update(
    s: Seq<Option<RotatedTile>>,
    j: int,
    v: Option<RotatedTile>,
)
    requires
        0 <= j < s.len(),
    ensures
        unresolved_count(s.update(j, v)) + (if s[j] is None {
            1nat
        } else {
            0nat
        }) == unresolved_count(s) + (if v is None {
            1nat
        } else {
            0nat
        }),
    decreases s.len(),
{
    if j == 0 {
        assert(s.update(0, v).drop_first() =~= s.drop_first());
    } else {
        lemma_unresolved_update(s.drop_first(), j - 1, v);
        assert(s.update(j, v).drop_first() =~= s.drop_first().update(j - 1, v));
    }
}

/// How an update of one cell changes the total number of candidates.
pub proof fn lemma_total_cands_update(s: Seq<Vec<RotatedTile>>, j: int, v: Vec<RotatedTile>)
    requires
        0 <= j < s.len(),
    ensures
        total_cands(s.update(j, v)) + s[j]@.len() == total_cands(s) + v@.len(),
    decreases s.len(),
{
    if j == 0 {
        assert(s.update(0, v).drop_first() =~= s.drop_first());
    } else {
        lemma_total_cands_update(s.drop_first(), j - 1, v);
        assert(s.update(j, v).drop_first() =~= s.drop_first().update(j - 1, v));
    }
}

/// Every in-domain cell of `m` is resolved.
pub open spec fn fully_resolved(m: TileMap) -> bool {
    forall|i: int| 0 <= i < m.cells().len() ==> #[trigger] m.cells()[i] is Some
}

/// At most one unresolved cell per cell.
proof fn lemma_unresolved_le_len(s: Seq<Option<RotatedTile>>)
    ensures
        unresolved_count(s) <= s.len(),
    decreases s.len(),
{
    if s.len() > 0 {
        lemma_unresolved_le_len(s.drop_first());
    }
}

/// A buffer whose unresolved count falls short of its length holds a
/// resolved cell.
proof fn lemma_some_resolved(s: Seq<Option<RotatedTile>>)
    requires
        unresolved_count(s) < s.len(),
    ensures
        exists|i: int| 0 <= i < s.len() && #[trigger] s[i] is Some,
    decreases s.len(),
{
    if s[0] is Some {
        assert(s[0] is Some);
    } else {
        lemma_some_resolved(s.drop_first());
        let i = choose|i: int| 0 <= i < s.drop_first().len() && #[trigger] s.drop_first()[i]
            is Some;
        assert(s[i + 1] is Some);
    }
}

/// Number of grid steps between two points.
spec fn walk_dist(a: Point2D, b: Point2D) -> int {
    (if a.0 as int >= b.0 as int {
        a.0 as int - b.0 as int
    } else {
        b.0 as int - a.0 as int
    }) + (if a.1 as int >= b.1 as int {
        a.1 as int - b.1 as int
    } else {
        b.1 as int - a.1 as int
    })
}

/// When no resolved cell has an unresolved in-bounds neighbour, being
/// resolved spreads from any resolved cell to the whole rectangle.
proof fn lemma_resolved_spreads(m: TileMap, a: Point2D, b: Point2D)
    requires
        m.wf(),
        m.in_bounds_spec(a),
        m.in_bounds_spec(b),
        cell_at(m, a) is Some,
        forall|p: Point2D, q: Point2D, d: Direction|
            #![trigger cell_at(m, p), cell_at(m, q), d.step_spec()]
            m.in_bounds_spec(p) && m.in_bounds_spec(q) && adjacent(p, q, d) && cell_at(m, p)
                is Some ==> cell_at(m, q) is Some,
    ensures
        cell_at(m, b) is Some,
    decreases walk_dist(a, b),
{
    if a == b {
    } else if (a.0 as int) < (b.0 as int) {
        let a2: Point2D = (((a.0 as int + 1) as isize), a.1);
        assert(a2.0 as int == a.0 as int + 1);
        assert(adjacent(a, a2, Direction::East));
        assert(Direction::East.step_spec() == (1int, 0int));
        assert(cell_at(m, a2) is Some);
        lemma_resolved_spreads(m, a2, b);
    } else if (a.0 as int) > (b.0 as int) {
        let a2: Point2D = (((a.0 as int - 1) as isize), a.1);
        assert(a2.0 as int == a.0 as int - 1);
        assert(adjacent(a, a2, Direction::West));
        assert(Direction::West.step_spec() == (-1int, 0int));
        assert(cell_at(m, a2) is Some);
        lemma_resolved_spreads(m, a2, b);
    } else if (a.1 as int) < (b.1 as int) {
        let a2: Point2D = (a.0, ((a.1 as int + 1) as isize));
        assert(a2.1 as int == a.1 as int + 1);
        assert(adjacent(a, a2, Direction::North));
        assert(Direction::North.step_spec() == (0int, 1int));
        assert(cell_at(m, a2) is Some);
        lemma_resolved_spreads(m, a2, b);
    } else {
        let a2: Point2D = (a.0, ((a.1 as int - 1) as isize));
        assert(a2.1 as int == a.1 as int - 1);
        assert(adjacent(a, a2, Direction::South));
        assert(Direction::South.step_spec() == (0int, -1int));
        assert(cell_at(m, a2) is Some);
        lemma_resolved_spreads(m, a2, b);
    }
}

/// Every linear cell index is the index of an in-bounds point.
proof fn lemma_point_of_idx(m: TileMap, i: int) -> (p: Point2D)
    requires
        m.wf(),
        0 <= i < m.cells().len(),
    ensures
        m.in_bounds_spec(p),
        m.idx_spec(p) == i,
{
    let w = m.width_spec();
    let h = m.height_spec();
    vstd::arithmetic::div_mod::lemma_fundamental_div_mod(i, w);
    assert(w >= 1) by (nonlinear_arith)
        requires
            w * h > 0,
            h >= 0,
            w >= 0,
    ;
    assert(0 <= i % w < w);
    assert(0 <= i / w < h) by (nonlinear_arith)
        requires
            w >= 1,
            h >= 0,
            0 <= i < w * h,
            i == w * (i / w) + i % w,
            0 <= i % w < w,
    ;
    assert(isize::MIN as int <= m.x_min_spec() + i % w <= isize::MAX as int);
    assert(isize::MIN as int <= m.y_min_spec() + i / w <= isize::MAX as int);
    let p: Point2D = (
        ((m.x_min_spec() + i % w) as isize),
        ((m.y_min_spec() + i / w) as isize),
    );
    assert(p.0 as int == m.x_min_spec() + i % w);
    assert(p.1 as int == m.y_min_spec() + i / w);
    p
}

/// Compute the entropy of a given candidate set.
pub fn entropy(candidates: &Vec<RotatedTile>) -> (r: usize)
    requires
        entropy_spec(candidates@) <= usize::MAX,
    ensures
        r == entropy_spec(candidates@),
{
    let mut total: usize = 0;
    let mut i: usize = 0;
    while i < candidates.len()
        invariant
            i <= candidates@.len(),
            entropy_spec(candidates@) <= usize::MAX,
            total == entropy_spec(candidates@.take(i as int)),
        decreases candidates@.len() - i,
    {
        proof {
            assert(candidates@.take(i + 1).drop_last() =~= candidates@.take(i as int));
            lemma_entropy_last(candidates@.take(i + 1));
            lemma_entropy_take_le(candidates@, i + 1);
        }
        total = total + candidates[i].tile().weight();
        i = i + 1;
    }
    proof {
        assert(candidates@.take(candidates@.len() as int) =~= candidates@);
    }
    total
}

/// The per-candidate weight list of a candidate set.
fn weights_of(candidates: &Vec<RotatedTile>) -> (r: Vec<usize>)
    ensures
        r@.len() == candidates@.len(),
        forall|i: int|
            0 <= i < r@.len() ==> #[trigger] r@[i] == candidates@[i].tile_spec().weight_spec(),
        forall|i: int| 0 <= i < r@.len() ==> 1 <= #[trigger] r@[i] <= 9,
        usize_sum(r@) == entropy_spec(candidates@),
{
    let mut r: Vec<usize> = Vec::new();
    let mut i: usize = 0;
    while i < candidates.len()
        invariant
            i <= candidates@.len(),
            r@.len() == i,
            forall|j: int|
                0 <= j < i ==> #[trigger] r@[j] == candidates@[j].tile_spec().weight_spec(),
            forall|j: int| 0 <= j < i ==> 1 <= #[trigger] r@[j] <= 9,
        decreases candidates@.len() - i,
    {
        r.push(candidates[i].tile().weight());
        i = i + 1;
    }
    proof {
        lemma_weights_sum_entropy(r@, candidates@);
    }
    r
}

/// Draw one member of `candidates`, with probability proportional to its
/// tile's weight.
pub fn sample(candidates: &Vec<RotatedTile>, rng: &mut rand::rngs::StdRng) -> (r: RotatedTile)
    requires
        candidates@.len() >= 1,
        entropy_spec(candidates@) <= usize::MAX,
    ensures
        candidates@.contains(r),
{
    let weights = weights_of(candidates);
    let i = weighted_index(rng, &weights);
    let r = candidates[i];
    proof {
        assert(candidates@[i as int] == r);
    }
    r
}

/// An owned copy of a candidate set.
fn copy_candidates(v: &Vec<RotatedTile>) -> (r: Vec<RotatedTile>)
    ensures
        r@ == v@,
{
    let mut r: Vec<RotatedTile> = Vec::new();
    let mut i: usize = 0;
    while i < v.len()
        invariant
            i <= v@.len(),
            r@ =~= v@.take(i as int),
        decreases v@.len() - i,
    {
        r.push(v[i]);
        i = i + 1;
    }
    proof {
        assert(v@.take(v@.len() as int) =~= v@);
        assert(r@ =~= v@);
    }
    r
}

/// The members of `s` that connect to `placed` across direction `d`, kept
/// in their order and multiplicity.
pub open spec fn connecting_of(s: Seq<RotatedTile>, placed: RotatedTile, d: Direction) -> Seq<
    RotatedTile,
>
    decreases s.len(),
{
    if s.len() == 0 {
        Seq::empty()
    } else if placed.connects_spec(s.last(), d) {
        connecting_of(s.drop_last(), placed, d).push(s.last())
    } else {
        connecting_of(s.drop_last(), placed, d)
    }
}

/// The members of `s` other than `bad`, kept in their order and
/// multiplicity.
pub open spec fn without_of(s: Seq<RotatedTile>, bad: RotatedTile) -> Seq<RotatedTile>
    decreases s.len(),
{
    if s.len() == 0 {
        Seq::empty()
    } else if s.last() == bad {
        without_of(s.drop_last(), bad)
    } else {
        without_of(s.drop_last(), bad).push(s.last())
    }
}

/// The members of `candidates` that connect to `placed` across the edge the
/// two share when the member sits one step in direction `d` from `placed`.
/// Entropy never grows under this filtering.
pub fn filter_connecting(candidates: &Vec<RotatedTile>, placed: RotatedTile, d: Direction) -> (r:
    Vec<RotatedTile>)
    ensures
        r@ == connecting_of(candidates@, placed, d),
        r@.len() <= candidates@.len(),
        entropy_spec(r@) <= entropy_spec(candidates@),
        forall|j: int|
            0 <= j < r@.len() ==> candidates@.contains(#[trigger] r@[j]) && placed.connects_spec(
                r@[j],
                d,
            ),
        forall|x: RotatedTile|
            candidates@.contains(x) && placed.connects_spec(x, d) ==> r@.contains(x),
{
    let mut out: Vec<RotatedTile> = Vec::new();
    let mut i: usize = 0;
    while i < candidates.len()
        invariant
            i <= candidates@.len(),
            out@.len() <= i,
            out@ == connecting_of(candidates@.take(i as int), placed, d),
            entropy_spec(out@) <= entropy_spec(candidates@.take(i as int)),
            forall|j: int|
                0 <= j < out@.len() ==> candidates@.contains(#[trigger] out@[j])
                    && placed.connects_spec(out@[j], d),
            forall|x: RotatedTile|
                candidates@.take(i as int).contains(x) && placed.connects_spec(x, d)
                    ==> out@.contains(x),
        decreases candidates@.len() - i,
    {
        let c = candidates[i];
        proof {
            assert(candidates@.contains(candidates@[i as int]));
        }
        let ghost old_out = out@;
        if placed.connects(&c, d) {
            out.push(c);
            proof {
                assert(out@.drop_last() =~= old_out);
                lemma_entropy_last(out@);
            }
        }
        proof {
            assert(candidates@.take(i + 1).drop_last() =~= candidates@.take(i as int));
            lemma_entropy_last(candidates@.take(i + 1));
            assert forall|x: RotatedTile|
                candidates@.take(i + 1).contains(x) && placed.connects_spec(x, d) implies
                out@.contains(x) by {
                let idx = choose|idx: int| 0 <= idx < i + 1 && #[trigger] candidates@.take(i + 1)[idx] == x;
                if idx < i {
                    assert(candidates@.take(i as int)[idx] == x);
                    assert(candidates@.take(i as int).contains(x));
                    assert(old_out.contains(x));
                    let oj = choose|oj: int| 0 <= oj < old_out.len() && #[trigger] old_out[oj] == x;
                    assert(out@[oj] == x);
                } else {
                    assert(x == c);
                    assert(out@.last() == c);
                }
            }
        }
        i = i + 1;
    }
    proof {
        assert(candidates@.take(candidates@.len() as int) =~= candidates@);
    }
    out
}

/// The members of `candidates` other than `bad`; entropy never grows, and
/// if `bad` was present the set strictly shrinks.
pub fn remove_candidate(candidates: &Vec<RotatedTile>, bad: RotatedTile) -> (r: Vec<RotatedTile>)
    ensures
        r@ == without_of(candidates@, bad),
        entropy_spec(r@) <= entropy_spec(candidates@),
        forall|j: int|
            0 <= j < r@.len() ==> candidates@.contains(#[trigger] r@[j]) && r@[j] != bad,
        forall|x: RotatedTile| candidates@.contains(x) && x != bad ==> r@.contains(x),
        candidates@.contains(bad) ==> r@.len() < candidates@.len(),
{
    let mut out: Vec<RotatedTile> = Vec::new();
    let mut i: usize = 0;
    while i < candidates.len()
        invariant
            i <= candidates@.len(),
            out@.len() <= i,
            out@ == without_of(candidates@.take(i as int), bad),
            candidates@.take(i as int).contains(bad) ==> out@.len() < i,
            entropy_spec(out@) <= entropy_spec(candidates@.take(i as int)),
            forall|j: int|
                0 <= j < out@.len() ==> candidates@.contains(#[trigger] out@[j]) && out@[j] != bad,
            forall|x: RotatedTile|
                candidates@.take(i as int).contains(x) && x != bad ==> out@.contains(x),
        decreases candidates@.len() - i,
    {
        let c = candidates[i];
        proof {
            assert(candidates@.contains(candidates@[i as int]));
        }
        let ghost old_out = out@;
        if !(c == bad) {
            out.push(c);
            proof {
                assert(out@.drop_last() =~= old_out);
                lemma_entropy_last(out@);
            }
        }
        proof {
            assert(candidates@.take(i + 1).drop_last() =~= candidates@.take(i as int));
            lemma_entropy_last(candidates@.take(i + 1));
            if c == bad {
                assert(candidates@.take(i + 1)[i as int] == bad);
                assert(candidates@.take(i + 1).contains(bad));
            }
            assert forall|x: RotatedTile|
                candidates@.take(i + 1).contains(x) && x != bad implies out@.contains(x) by {
                let idx = choose|idx: int| 0 <= idx < i + 1 && #[trigger] candidates@.take(i + 1)[idx] == x;
                if idx < i {
                    assert(candidates@.take(i as int)[idx] == x);
                    assert(candidates@.take(i as int).contains(x));
                    assert(old_out.contains(x));
                    let oj = choose|oj: int| 0 <= oj < old_out.len() && #[trigger] old_out[oj] == x;
                    assert(out@[oj] == x);
                } else {
                    assert(x == c);
                    assert(out@.last() == c);
                }
            }
            if candidates@.take(i + 1).contains(bad) && !candidates@.take(i as int).contains(
                bad,
            ) {
                let bi = choose|bi: int| 0 <= bi < i + 1 && #[trigger] candidates@.take(i + 1)[bi] == bad;
                if bi < i {
                    assert(candidates@.take(i as int)[bi] == bad);
                }
                assert(c == bad);
            }
        }
        i = i + 1;
    }
    proof {
        assert(candidates@.take(candidates@.len() as int) =~= candidates@);
    }
    out
}

/// A clone of a candidate vector holds the same candidates.
proof fn lemma_cloned_candidates(a: Vec<RotatedTile>, b: Vec<RotatedTile>)
    requires
        cloned::<Vec<RotatedTile>>(a, b),
    ensures
        b@ =~= a@,
{
    if a == b {
    } else {
        assert(call_ensures(<Vec<RotatedTile> as Clone>::clone, (&a,), b));
        assert(b@.len() == a@.len());
        assert forall|k: int| 0 <= k < a@.len() implies b@[k] == a@[k] by {
            assert(cloned::<RotatedTile>(a@[k], b@[k]));
            if a@[k] == b@[k] {
            } else {
                assert(call_ensures(<RotatedTile as Clone>::clone, (&a@[k],), b@[k]));
            }
        }
    }
}

/// Whether `p` is a member of the frontier queue.
fn queue_contains(queue: &Vec<Point2D>, p: Point2D) -> (r: bool)
    ensures
        r == queue@.contains(p),
{
    let mut i: usize = 0;
    while i < queue.len()
        invariant
            i <= queue@.len(),
            forall|j: int| 0 <= j < i ==> queue@[j] != p,
        decreases queue@.len() - i,
    {
        let q = queue[i];
        if q.0 == p.0 && q.1 == p.1 {
            proof {
                assert(queue@[i as int] == p);
            }
            return true;
        }
        i = i + 1;
    }
    false
}

/// Index of a frontier member of least entropy; ties go to the earliest
/// member, so the choice is deterministic for a fixed queue order.
#[verifier::loop_isolation(false)]
fn select_min_entropy(queue: &Vec<Point2D>, cm: &CandidateMap) -> (k: usize)
    requires
        queue@.len() >= 1,
        cm.wf(),
        forall|j: int| 0 <= j < queue@.len() ==> cm.in_bounds_spec(#[trigger] queue@[j]),
        forall|j: int|
            0 <= j < queue@.len() ==> entropy_spec(cand_at(*cm, #[trigger] queue@[j]))
                <= usize::MAX,
    ensures
        k < queue@.len(),
        forall|j: int|
            0 <= j < queue@.len() ==> entropy_spec(cand_at(*cm, queue@[k as int]))
                <= entropy_spec(cand_at(*cm, #[trigger] queue@[j])),
{
    let mut best: usize = 0;
    let mut best_e: usize = entropy(cm.get(queue[0]));
    let mut j: usize = 1;
    while j < queue.len()
        invariant
            1 <= j <= queue@.len(),
            (best as int) < j,
            best_e == entropy_spec(cand_at(*cm, queue@[best as int])),
            forall|jj: int|
                0 <= jj < j ==> best_e <= entropy_spec(cand_at(*cm, #[trigger] queue@[jj])),
        decreases queue@.len() - j,
    {
        let e = entropy(cm.get(queue[j]));
        if e < best_e {
            best = j;
            best_e = e;
        }
        j = j + 1;
    }
    best
}

/// Every resolved cell of `m` holds a member of `cat`.
pub open spec fn from_catalogue(m: TileMap, cat: Seq<RotatedTile>) -> bool {
    forall|i: int|
        0 <= i < m.cells().len() && #[trigger] m.cells()[i] is Some ==> cat.contains(
            m.cells()[i]->Some_0,
        )
}

/// A selection out of `cands` only holds members of whatever `cands` draws
/// its members from.
proof fn lemma_selection_members(
    cands: Seq<RotatedTile>,
    sub: Seq<RotatedTile>,
    cat: Seq<RotatedTile>,
)
    requires
        forall|j: int| 0 <= j < sub.len() ==> cands.contains(#[trigger] sub[j]),
        forall|j: int| 0 <= j < cands.len() ==> cat.contains(#[trigger] cands[j]),
    ensures
        forall|j: int| 0 <= j < sub.len() ==> cat.contains(#[trigger] sub[j]),
{
    assert forall|j: int| 0 <= j < sub.len() implies cat.contains(sub[j]) by {
        let jj = choose|jj: int| 0 <= jj < cands.len() && #[trigger] cands[jj] == sub[j];
        assert(cat.contains(cands[jj]));
    }
}

/// Each direction stands in the list of all directions at its own index.
proof fn lemma_dir_in_all(d: Direction)
    ensures
        0 <= d.index_spec() < 4,
        Direction::all_spec()[d.index_spec()] == d,
{
}

/// Run configuration for a default generation run.
pub struct Args {}

/// The full catalogue of oriented tiles: every tile shape under every
/// rotation, tiles in catalogue order, rotations by increasing angle.
pub open spec fn full_catalogue() -> Seq<RotatedTile> {
    Seq::new(
        96,
        |idx: int|
            RotatedTile::new_spec(Tile::all_spec()[idx / 4], Rotation::all_spec()[idx % 4]),
    )
}

/// Relies on itertools' `cartesian_product`: all pairs drawn from the two
/// lists, in outer-then-inner order.
#[verifier::external_body]
fn cross_product(tiles: &Vec<Tile>, rotations: &Vec<Rotation>) -> (r: Vec<RotatedTile>)
    ensures
        r@.len() == tiles@.len() * rotations@.len(),
        forall|idx: int|
            0 <= idx < r@.len() ==> #[trigger] r@[idx] == RotatedTile::new_spec(
                tiles@[idx / (rotations@.len() as int)],
                rotations@[idx % (rotations@.len() as int)],
            ),
{
    tiles.iter().cloned().cartesian_product(rotations.iter().cloned()).map(
        |pair: (Tile, Rotation)| RotatedTile::new(pair.0, pair.1),
    ).collect()
}

/// Generate the default map: the full catalogue under every rotation,
/// solved over the default 50 by 50 grid at the origin.
pub fn generate(_args: Args, rng: &mut rand::rngs::StdRng) -> (r: Option<TileMap>)
    ensures
        r is Some ==> {
            &&& r->Some_0.wf()
            &&& r->Some_0.x_min_spec() == 0
            &&& r->Some_0.y_min_spec() == 0
            &&& r->Some_0.width_spec() == 50
            &&& r->Some_0.height_spec() == 50
            &&& consistent(r->Some_0)
            &&& from_catalogue(r->Some_0, full_catalogue())
            &&& fully_resolved(r->Some_0)
        },
{
    let tiles = Tile::all();
    let rotations = Rotation::all();
    let catalogue = cross_product(&tiles, &rotations);
    proof {
        lemma_entropy_le_nine_len(catalogue@);
        assert(tiles@.len() == 24 && rotations@.len() == 4) by {
            assert(tiles@ =~= Tile::all_spec());
            assert(rotations@ =~= Rotation::all_spec());
        }
        assert(catalogue@.len() == 96);
        assert forall|idx: int| 0 <= idx < 96 implies catalogue@[idx] == full_catalogue()[idx] by {
            assert(catalogue@[idx] == RotatedTile::new_spec(
                tiles@[idx / 4],
                rotations@[idx % 4],
            ));
        }
        assert(catalogue@ =~= full_catalogue());
    }
    generate_with(0, 0, 50, 50, catalogue, rng)
}

/// Run the solver over the rectangle
/// `[x_min, x_min + width) x [y_min, y_min + height)` with the given
/// catalogue of oriented-tile candidates.
///
/// On `Some`, the returned map covers exactly that rectangle, any two
/// adjacent resolved cells agree on their shared edge, and every resolved
/// cell holds a catalogue member.  `None` reports the one failure mode: a
/// frontier cell whose candidate set became empty.
#[verifier::loop_isolation(false)]
#[verifier::rlimit(100)]
pub fn generate_with(
    x_min: isize,
    y_min: isize,
    width: usize,
    height: usize,
    catalogue: Vec<RotatedTile>,
    rng: &mut rand::rngs::StdRng,
) -> (r: Option<TileMap>)
    requires
        1 <= width as int,
        1 <= height as int,
        width as int <= isize::MAX as int,
        height as int <= isize::MAX as int,
        x_min as int > isize::MIN as int,
        y_min as int > isize::MIN as int,
        x_min as int + width as int <= isize::MAX as int,
        y_min as int + height as int <= isize::MAX as int,
        width as int * height as int <= usize::MAX as int,
        entropy_spec(catalogue@) <= usize::MAX,
    ensures
        r is Some ==> {
            &&& r->Some_0.wf()
            &&& r->Some_0.x_min_spec() == x_min as int
            &&& r->Some_0.y_min_spec() == y_min as int
            &&& r->Some_0.width_spec() == width as int
            &&& r->Some_0.height_spec() == height as int
            &&& consistent(r->Some_0)
            &&& from_catalogue(r->Some_0, catalogue@)
            &&& fully_resolved(r->Some_0)
        },
        width as int == 1 && height as int == 1 && catalogue@.len() >= 1 ==> r is Some,
{
    let ghost cat = catalogue@;
    let ghost tiny = width as int == 1 && height as int == 1 && cat.len() >= 1;

    // 1. Initialize the solved map: every cell unresolved.
    let tile_map_init: TileMap = FixedMap2D::new(x_min, y_min, width, height);
    let mut tile_map = tile_map_init;
    proof {
        assert forall|i: int| 0 <= i < tile_map.cells().len() implies tile_map.cells()[i]
            is None by {
            assert(call_ensures(
                <Option<RotatedTile> as Default>::default,
                (),
                tile_map.cells()[i],
            ));
        }
    }

    // 2.-3. Candidate map: the full catalogue in every cell.
    let ghost catalogue0 = catalogue;
    let mut candidate_map: CandidateMap = FixedMap2D::new(x_min, y_min, width, height);
    candidate_map.fill(catalogue);
    proof {
        assert forall|i: int, j: int|
            0 <= i < candidate_map.cells().len() && 0 <= j < candidate_map.cells()[i]@.len()
            implies cat.contains(#[trigger] candidate_map.cells()[i]@[j]) by {
            lemma_cloned_candidates(catalogue0, candidate_map.cells()[i]);
            assert(candidate_map.cells()[i]@[j] == cat[j]);
        }
        assert forall|i: int| 0 <= i < candidate_map.cells().len() implies entropy_spec(
            #[trigger] candidate_map.cells()[i]@,
        ) <= entropy_spec(cat) by {
            lemma_cloned_candidates(catalogue0, candidate_map.cells()[i]);
            assert(candidate_map.cells()[i]@ =~= cat);
        }
        assert forall|i: int| 0 <= i < candidate_map.cells().len() implies (
        #[trigger] candidate_map.cells()[i]@).len() == cat.len() by {
            lemma_cloned_candidates(catalogue0, candidate_map.cells()[i]);
        }
    }

    // 4. Random starting point; it seeds the frontier.
    let start = tile_map.sample_point(rng);
    let mut queue: Vec<Point2D> = Vec::new();
    queue.push(start);
    proof {
        assert forall|pp: Point2D| tile_map.in_bounds_spec(pp) implies #[trigger] cell_at(
            tile_map,
            pp,
        ) is None by {
            tile_map.lemma_idx_in_range(pp);
        }
        assert(consistent(tile_map));
        assert(cell_at(tile_map, start) is None);
        if tiny {
            candidate_map.lemma_idx_in_range(start);
            assert(cand_at(candidate_map, start).len() == cat.len());
        }
    }

    let dirs = Direction::all();

    // 7. Collapse frontier cells until none is left.
    while queue.len() > 0
        invariant
            tile_map.wf(),
            candidate_map.wf(),
            tile_map.x_min_spec() == x_min as int,
            tile_map.y_min_spec() == y_min as int,
            tile_map.width_spec() == width as int,
            tile_map.height_spec() == height as int,
            candidate_map.x_min_spec() == x_min as int,
            candidate_map.y_min_spec() == y_min as int,
            candidate_map.width_spec() == width as int,
            candidate_map.height_spec() == height as int,
            consistent(tile_map),
            from_catalogue(tile_map, cat),
            forall|i: int|
                0 <= i < candidate_map.cells().len() ==> entropy_spec(
                    #[trigger] candidate_map.cells()[i]@,
                ) <= entropy_spec(cat),
            forall|i: int, j: int|
                0 <= i < candidate_map.cells().len() && 0 <= j < candidate_map.cells()[i]@.len()
                    ==> cat.contains(#[trigger] candidate_map.cells()[i]@[j]),
            forall|j: int|
                0 <= j < queue@.len() ==> tile_map.in_bounds_spec(#[trigger] queue@[j]) && cell_at(
                    tile_map,
                    queue@[j],
                ) is None,
            forall|j1: int, j2: int| 0 <= j1 < j2 < queue@.len() ==> queue@[j1] != queue@[j2],
            tiny ==> forall|j: int|
                0 <= j < queue@.len() ==> cand_at(candidate_map, #[trigger] queue@[j]).len() >= 1,
            forall|p_: Point2D, q_: Point2D, d_: Direction|
                #![trigger cell_at(tile_map, p_), cell_at(tile_map, q_), d_.step_spec()]
                tile_map.in_bounds_spec(p_) && tile_map.in_bounds_spec(q_) && adjacent(p_, q_, d_)
                    && cell_at(tile_map, p_) is Some && cell_at(tile_map, q_) is None
                    ==> queue@.contains(q_),
            unresolved_count(tile_map.cells()) == tile_map.cells().len() ==> queue@.len() >= 1,
        decreases unresolved_count(tile_map.cells()) + total_cands(candidate_map.cells()),
    {
        let ghost tm_enter = tile_map;
        let ghost cm_enter = candidate_map;

        // 5. Collapse the frontier cell with the least entropy.
        proof {
            assert forall|j: int| 0 <= j < queue@.len() implies candidate_map.in_bounds_spec(
                #[trigger] queue@[j],
            ) && entropy_spec(cand_at(candidate_map, queue@[j])) <= usize::MAX by {
                candidate_map.lemma_idx_in_range(queue@[j]);
            }
        }
        let k = select_min_entropy(&queue, &candidate_map);
        let p = queue[k];
        proof {
            assert(tile_map.in_bounds_spec(p));
            assert(cell_at(tile_map, p) is None);
            candidate_map.lemma_idx_in_range(p);
        }
        let cands = copy_candidates(candidate_map.get(p));
        if cands.len() == 0 {
            proof {
                if tiny {
                    assert(p == queue@[k as int]);
                    assert(cand_at(candidate_map, p).len() >= 1);
                }
            }
            // The frontier reached a cell with no legal tile left.
            return None;
        }
        let sampled = sample(&cands, rng);
        proof {
            let jj = choose|jj: int| 0 <= jj < cands@.len() && #[trigger] cands@[jj] == sampled;
            assert(candidate_map.cells()[candidate_map.idx_spec(p)]@[jj] == sampled);
            assert(cat.contains(sampled));
        }

        // Check the sample against every already-resolved neighbour.
        let x = p.0;
        let y = p.1;
        let mut all_ok = true;
        let mut di: usize = 0;
        while di < 4
            invariant
                di <= 4,
                tiny ==> all_ok,
                all_ok ==> forall|j: int, q: Point2D|
                    #![trigger dirs@[j], cell_at(tile_map, q)]
                    0 <= j < di && adjacent(p, q, dirs@[j]) && tile_map.in_bounds_spec(q)
                        && cell_at(tile_map, q) is Some ==> sampled.connects_spec(
                        cell_at(tile_map, q)->Some_0,
                        dirs@[j],
                    ),
            decreases 4 - di,
        {
            let d = dirs[di];
            let (dx, dy) = d.step();
            let q = (x + dx, y + dy);
            if tile_map.inbounds(q) {
                let cell = *tile_map.get(q);
                match cell {
                    Some(other) => {
                        if !sampled.connects(&other, d) {
                            proof {
                                if tiny {
                                    assert(q.0 as int == x_min as int && p.0 as int
                                        == x_min as int);
                                    assert(q.1 as int == y_min as int && p.1 as int
                                        == y_min as int);
                                    assert(d.step_spec().0 != 0 || d.step_spec().1 != 0);
                                    assert(false);
                                }
                            }
                            all_ok = false;
                        }
                    },
                    None => {},
                }
            }
            proof {
                assert forall|q2: Point2D| adjacent(p, q2, dirs@[di as int]) implies q2 == q by {
                    assert(q2.0 as int == q.0 as int);
                    assert(q2.1 as int == q.1 as int);
                }
            }
            di = di + 1;
        }

        if !all_ok {
            // 4b. Reject the sample: remove it from this cell's candidates
            // and try again; nothing else changes.
            let newc = remove_candidate(&cands, sampled);
            let ghost newc0 = newc;
            proof {
                lemma_selection_members(
                    cands@,
                    newc@,
                    cat,
                );
            }
            candidate_map.set(p, newc);
            proof {
                lemma_total_cands_update(cm_enter.cells(), cm_enter.idx_spec(p), newc0);
                assert(cands@.contains(sampled));
                assert(newc0@.len() < cands@.len());
                assert(total_cands(candidate_map.cells()) < total_cands(cm_enter.cells()));
                assert forall|i: int| 0 <= i < candidate_map.cells().len() implies entropy_spec(
                    #[trigger] candidate_map.cells()[i]@,
                ) <= entropy_spec(cat) by {
                    if i == cm_enter.idx_spec(p) {
                        assert(entropy_spec(newc0@) <= entropy_spec(cands@));
                    } else {
                        assert(candidate_map.cells()[i]@ == cm_enter.cells()[i]@);
                    }
                }
                assert forall|i: int, j: int|
                    0 <= i < candidate_map.cells().len() && 0 <= j
                        < candidate_map.cells()[i]@.len() implies cat.contains(
                    #[trigger] candidate_map.cells()[i]@[j],
                ) by {
                    if i != cm_enter.idx_spec(p) {
                        assert(candidate_map.cells()[i]@ == cm_enter.cells()[i]@);
                        assert(cat.contains(cm_enter.cells()[i]@[j]));
                    }
                }
            }
        } else {
            // 5b. Commit the sample and propagate the constraint.
            let ghost queue_before = queue@;
            queue.remove(k);
            proof {
                queue_before.remove_ensures(k as int);
                assert forall|j: int| 0 <= j < queue@.len() implies #[trigger] queue@[j] != p by {
                    if j < k {
                        assert(queue@[j] == queue_before[j]);
                    } else {
                        assert(queue@[j] == queue_before[j + 1]);
                    }
                }
                assert forall|j1: int, j2: int| 0 <= j1 < j2 < queue@.len() implies queue@[j1]
                    != queue@[j2] by {
                    let m1: int = if j1 < k { j1 } else { j1 + 1 };
                    let m2: int = if j2 < k { j2 } else { j2 + 1 };
                    assert(queue@[j1] == queue_before[m1]);
                    assert(queue@[j2] == queue_before[m2]);
                }
                if tiny && queue@.len() > 0 {
                    let m0: int = if 0 < k {
                        0int
                    } else {
                        1int
                    };
                    assert(queue@[0] == queue_before[m0]);
                    assert(tile_map.in_bounds_spec(queue@[0]));
                    assert(queue@[0].0 as int == x_min as int && p.0 as int == x_min as int);
                    assert(queue@[0].1 as int == y_min as int && p.1 as int == y_min as int);
                    assert(queue@[0] == p);
                    assert(false);
                }
            }
            let ghost tm_old = tile_map;
            tile_map.set(p, Some(sampled));
            proof {
                // The committed map stays consistent.
                assert forall|pp: Point2D, qq: Point2D, d: Direction|
                    tile_map.in_bounds_spec(pp) && tile_map.in_bounds_spec(qq) && adjacent(
                        pp,
                        qq,
                        d,
                    ) && cell_at(tile_map, pp) is Some && cell_at(tile_map, qq)
                        is Some implies cell_at(tile_map, pp)->Some_0.connects_spec(
                    cell_at(tile_map, qq)->Some_0,
                    d,
                ) by {
                    tm_old.lemma_idx_in_range(pp);
                    tm_old.lemma_idx_in_range(qq);
                    lemma_dir_in_all(d);
                    assert(dirs@[d.index_spec()] == d);
                    assert(qq != pp);
                    if pp == p {
                        tm_old.lemma_idx_injective(qq, p);
                        assert(cell_at(tile_map, qq) == cell_at(tm_old, qq));
                        assert(sampled.connects_spec(cell_at(tm_old, qq)->Some_0, d));
                    } else if qq == p {
                        tm_old.lemma_idx_injective(pp, p);
                        assert(cell_at(tile_map, pp) == cell_at(tm_old, pp));
                        let a = cell_at(tile_map, pp)->Some_0;
                        lemma_dir_in_all(d.rev_spec());
                        assert(dirs@[d.rev_spec().index_spec()] == d.rev_spec());
                        assert(adjacent(p, pp, d.rev_spec()));
                        assert(sampled.connects_spec(a, d.rev_spec()));
                        lemma_connects_symmetric(sampled, a, d.rev_spec());
                        assert(d.rev_spec().rev_spec() == d);
                    } else {
                        tm_old.lemma_idx_injective(pp, p);
                        tm_old.lemma_idx_injective(qq, p);
                        assert(cell_at(tile_map, pp) == cell_at(tm_old, pp));
                        assert(cell_at(tile_map, qq) == cell_at(tm_old, qq));
                        assert(d.step_spec() == d.step_spec());
                    }
                }
                // Every resolved cell still comes from the catalogue.
                assert forall|i: int|
                    0 <= i < tile_map.cells().len() && #[trigger] tile_map.cells()[i]
                        is Some implies cat.contains(tile_map.cells()[i]->Some_0) by {
                    tm_old.lemma_idx_in_range(p);
                    if i != tm_old.idx_spec(p) {
                        assert(tile_map.cells()[i] == tm_old.cells()[i]);
                    }
                }
                // The frontier lost exactly the committed cell.
                assert forall|j: int| 0 <= j < queue@.len() implies tile_map.in_bounds_spec(
                    #[trigger] queue@[j],
                ) && cell_at(tile_map, queue@[j]) is None by {
                    let m: int = if j < k {
                        j
                    } else {
                        j + 1
                    };
                    assert(queue@[j] == queue_before[m]);
                    assert(tm_old.in_bounds_spec(queue_before[m]));
                    assert(cell_at(tm_old, queue@[j]) is None);
                    tm_old.lemma_idx_in_range(p);
                    tm_old.lemma_idx_in_range(queue@[j]);
                    assert(queue@[j] != p);
                    tm_old.lemma_idx_injective(queue@[j], p);
                }
                // One fewer unresolved cell.
                tm_old.lemma_idx_in_range(p);
                lemma_unresolved_update(tm_old.cells(), tm_old.idx_spec(p), Some(sampled));
                // Unresolved neighbours of every other resolved cell are
                // still on the frontier.
                assert forall|p_: Point2D, q_: Point2D, d_: Direction|
                    #![trigger cell_at(tile_map, p_), cell_at(tile_map, q_), d_.step_spec()]
                    tile_map.in_bounds_spec(p_) && tile_map.in_bounds_spec(q_) && adjacent(
                        p_,
                        q_,
                        d_,
                    ) && p_ != p && cell_at(tile_map, p_) is Some && cell_at(tile_map, q_)
                        is None implies queue@.contains(q_) by {
                    tm_old.lemma_idx_in_range(p);
                    tm_old.lemma_idx_in_range(p_);
                    tm_old.lemma_idx_in_range(q_);
                    tm_old.lemma_idx_injective(p_, p);
                    assert(q_ != p);
                    tm_old.lemma_idx_injective(q_, p);
                    assert(cell_at(tm_old, p_) is Some);
                    assert(cell_at(tm_old, q_) is None);
                    assert(queue_before.contains(q_));
                    let ji = choose|ji: int|
                        0 <= ji < queue_before.len() && #[trigger] queue_before[ji] == q_;
                    assert(queue_before[k as int] == p);
                    if ji < k {
                        assert(queue@[ji] == q_);
                    } else {
                        assert(ji != k);
                        assert(queue@[ji - 1] == q_);
                    }
                }
            }

            // 6. Propagate the constraint into unresolved neighbours.
            let ghost cm_commit = candidate_map;
            let mut di2: usize = 0;
            while di2 < 4
                invariant
                    di2 <= 4,
                    candidate_map.wf(),
                    candidate_map.x_min_spec() == x_min as int,
                    candidate_map.y_min_spec() == y_min as int,
                    candidate_map.width_spec() == width as int,
                    candidate_map.height_spec() == height as int,
                    total_cands(candidate_map.cells()) <= total_cands(cm_commit.cells()),
                    forall|i: int|
                        0 <= i < candidate_map.cells().len() ==> entropy_spec(
                            #[trigger] candidate_map.cells()[i]@,
                        ) <= entropy_spec(cat),
                    forall|i: int, j: int|
                        0 <= i < candidate_map.cells().len() && 0 <= j
                            < candidate_map.cells()[i]@.len() ==> cat.contains(
                            #[trigger] candidate_map.cells()[i]@[j],
                        ),
                    forall|j: int|
                        0 <= j < queue@.len() ==> tile_map.in_bounds_spec(#[trigger] queue@[j])
                            && cell_at(tile_map, queue@[j]) is None,
                    forall|j1: int, j2: int|
                        0 <= j1 < j2 < queue@.len() ==> queue@[j1] != queue@[j2],
                    tiny ==> queue@.len() == 0,
                    forall|p_: Point2D, q_: Point2D, d_: Direction|
                        #![trigger cell_at(tile_map, p_), cell_at(tile_map, q_), d_.step_spec()]
                        tile_map.in_bounds_spec(p_) && tile_map.in_bounds_spec(q_) && adjacent(
                            p_,
                            q_,
                            d_,
                        ) && p_ != p && cell_at(tile_map, p_) is Some && cell_at(tile_map, q_)
                            is None ==> queue@.contains(q_),
                    forall|j: int, q_: Point2D|
                        #![trigger dirs@[j], cell_at(tile_map, q_)]
                        0 <= j < di2 && adjacent(p, q_, dirs@[j]) && tile_map.in_bounds_spec(q_)
                            && cell_at(tile_map, q_) is None ==> queue@.contains(q_),
                decreases 4 - di2,
            {
                let d = dirs[di2];
                let (dx, dy) = d.step();
                let q = (x + dx, y + dy);
                if tile_map.inbounds(q) {
                    let resolved = tile_map.get(q).is_some();
                    if !resolved {
                        proof {
                            if tiny {
                                assert(q.0 as int == x_min as int && p.0 as int == x_min as int);
                                assert(q.1 as int == y_min as int && p.1 as int == y_min as int);
                                assert(q == p);
                                tm_old.lemma_idx_in_range(p);
                                assert(cell_at(tile_map, q) is Some);
                                assert(false);
                            }
                        }
                        let in_q = queue_contains(&queue, q);
                        let ghost queue_pre = queue@;
                        if !in_q {
                            queue.push(q);
                        }
                        proof {
                            if !in_q {
                                assert(queue@[queue@.len() - 1] == q);
                            }
                            assert(queue@.contains(q));
                            assert forall|y: Point2D| queue_pre.contains(y) implies queue@.contains(
                                y,
                            ) by {
                                let ji = choose|ji: int|
                                    0 <= ji < queue_pre.len() && #[trigger] queue_pre[ji] == y;
                                assert(queue@[ji] == y);
                            }
                            candidate_map.lemma_idx_in_range(q);
                        }
                        let filtered = filter_connecting(candidate_map.get(q), sampled, d);
                        let ghost filtered0 = filtered;
                        let ghost cm_mid = candidate_map;
                        proof {
                            lemma_selection_members(
                                cm_mid.cells()[cm_mid.idx_spec(q)]@,
                                filtered@,
                                cat,
                            );
                        }
                        candidate_map.set(q, filtered);
                        proof {
                            lemma_total_cands_update(
                                cm_mid.cells(),
                                cm_mid.idx_spec(q),
                                filtered0,
                            );
                            assert forall|i: int, j: int|
                                0 <= i < candidate_map.cells().len() && 0 <= j
                                    < candidate_map.cells()[i]@.len() implies cat.contains(
                                #[trigger] candidate_map.cells()[i]@[j],
                            ) by {
                                if i != cm_mid.idx_spec(q) {
                                    assert(candidate_map.cells()[i]@ == cm_mid.cells()[i]@);
                                    assert(cat.contains(cm_mid.cells()[i]@[j]));
                                }
                            }
                        }
                    }
                }
                proof {
                    assert forall|q2: Point2D| adjacent(p, q2, dirs@[di2 as int]) implies q2
                        == q by {
                        assert(q2.0 as int == q.0 as int);
                        assert(q2.1 as int == q.1 as int);
                    }
                }
                di2 = di2 + 1;
            }
            proof {
                assert(unresolved_count(tile_map.cells()) + 1 == unresolved_count(
                    tm_enter.cells(),
                ));
                lemma_unresolved_le_len(tm_enter.cells());
                // Frontier coverage holds again, the committed cell's own
                // neighbours included.
                assert forall|p_: Point2D, q_: Point2D, d_: Direction|
                    #![trigger cell_at(tile_map, p_), cell_at(tile_map, q_), d_.step_spec()]
                    tile_map.in_bounds_spec(p_) && tile_map.in_bounds_spec(q_) && adjacent(
                        p_,
                        q_,
                        d_,
                    ) && cell_at(tile_map, p_) is Some && cell_at(tile_map, q_)
                        is None implies queue@.contains(q_) by {
                    if p_ == p {
                        lemma_dir_in_all(d_);
                        assert(dirs@[d_.index_spec()] == d_);
                    }
                }
            }
        }
    }

    // The frontier is exhausted: every cell is resolved, since resolvedness
    // spreads from any resolved cell once no resolved cell has an
    // unresolved neighbour left.
    proof {
        lemma_unresolved_le_len(tile_map.cells());
        assert(unresolved_count(tile_map.cells()) < tile_map.cells().len());
        lemma_some_resolved(tile_map.cells());
        let ia = choose|ia: int|
            0 <= ia < tile_map.cells().len() && #[trigger] tile_map.cells()[ia] is Some;
        let a = lemma_point_of_idx(tile_map, ia);
        assert(cell_at(tile_map, a) is Some);
        assert forall|p_: Point2D, q_: Point2D, d_: Direction|
            #![trigger cell_at(tile_map, p_), cell_at(tile_map, q_), d_.step_spec()]
            tile_map.in_bounds_spec(p_) && tile_map.in_bounds_spec(q_) && adjacent(p_, q_, d_)
                && cell_at(tile_map, p_) is Some implies cell_at(tile_map, q_) is Some by {
            assert(!queue@.contains(q_));
        }
        assert forall|i: int| 0 <= i < tile_map.cells().len() implies #[trigger] tile_map.cells()[i]
            is Some by {
            let b = lemma_point_of_idx(tile_map, i);
            lemma_resolved_spreads(tile_map, a, b);
        }
    }
    Some(tile_map)
}

} // verus!

