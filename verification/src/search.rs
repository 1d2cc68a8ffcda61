//! The local search: random restarts over the mutable positions and the
//! best-improvement pairwise-swap step, driven by the hill-climb controller.

use vstd::prelude::*;

use rand::RngExt;

use crate::board::constructed_from;
use crate::board::missing_values;
use crate::board::State;
use crate::score::board_score;
use crate::score::lemma_score_at_most_max;

verus! {

/// The board `b` with the values at indices `p` and `q` exchanged.
pub open spec fn swapped(b: Seq<u8>, p: int, q: int) -> Seq<u8> {
    b.update(p, b[q]).update(q, b[p])
}

/// How every mutation of a well-formed board relates the new state to the
/// old: the width and the mutable-position list are untouched, every fixed
/// cell keeps its value, the new state is well-formed, and the mutable cells
/// hold the same set of values as before.
pub open spec fn permutes_mutable(pre: State, post: State) -> bool {
    &&& post.wf()
    &&& post.n == pre.n
    &&& post.assignments@ == pre.assignments@
    &&& post.board@.len() == pre.board@.len()
    &&& forall|i: int|
        0 <= i < pre.board@.len() && !pre.is_mutable_pos(i) ==> post.board@[i] == pre.board@[i]
    &&& forall|v: u8| post.mutable_values().contains(v) <==> pre.mutable_values().contains(v)
}

/// Swapping the same two indices twice restores the board.
proof fn lemma_swapped_involutive(b: Seq<u8>, p: int, q: int)
    requires
        0 <= p < b.len(),
        0 <= q < b.len(),
    ensures
        swapped(swapped(b, p, q), p, q) == b,
{
    assert(swapped(swapped(b, p, q), p, q) =~= b);
}

/// Exchanging the values at two mutable positions of a well-formed state is
/// one of the mutations that `permutes_mutable` describes.
proof fn lemma_swap_mutable(pre: State, post: State, a: int, b: int)
    requires
        pre.wf(),
        post.n == pre.n,
        post.assignments@ == pre.assignments@,
        0 <= a < pre.assignments@.len(),
        0 <= b < pre.assignments@.len(),
        post.board@ == swapped(
            pre.board@,
            pre.assignments@[a] as int,
            pre.assignments@[b] as int,
        ),
    ensures
        permutes_mutable(pre, post),
{
    let p = pre.assignments@[a] as int;
    let q = pre.assignments@[b] as int;
    assert(forall|k1: int, k2: int|
        0 <= k1 < pre.assignments@.len() && 0 <= k2 < pre.assignments@.len() && k1 != k2
            ==> pre.assignments@[k1] != pre.assignments@[k2]);
    assert forall|i: int, j: int| 0 <= i < j < post.board@.len() implies post.board@[i]
        != post.board@[j] by {
        let si = if i == p { q } else if i == q { p } else { i };
        let sj = if j == p { q } else if j == q { p } else { j };
        assert(post.board@[i] == pre.board@[si]);
        assert(post.board@[j] == pre.board@[sj]);
        assert(si != sj);
    }
    assert forall|i: int|
        0 <= i < pre.board@.len() && !pre.is_mutable_pos(i) implies post.board@[i]
        == pre.board@[i] by {
        assert(pre.assignments@[a] == p);
        assert(pre.assignments@[b] == q);
        assert(i != p && i != q);
    }
    assert forall|v: u8| post.mutable_values().contains(v) implies pre.mutable_values().contains(
        v,
    ) by {
        let k = choose|k: int|
            0 <= k < post.mutable_values().len() && post.mutable_values()[k] == v;
        let sk = if k == a {
            b
        } else if k == b {
            a
        } else {
            k
        };
        assert(pre.mutable_values()[sk] == v);
    }
    assert forall|v: u8| pre.mutable_values().contains(v) implies post.mutable_values().contains(
        v,
    ) by {
        let k = choose|k: int| 0 <= k < pre.mutable_values().len() && pre.mutable_values()[k] == v;
        let sk = if k == a {
            b
        } else if k == b {
            a
        } else {
            k
        };
        assert(post.mutable_values()[sk] == v);
    }
}

/// The values at the mutable positions are conserved by the whole search:
/// after construction from `input` and any mutation satisfying
/// `permutes_mutable` — a restart, a step, or a chain of them — the mutable
/// positions hold, without repeats, exactly the set of values of `1..=n*n`
/// that `input` lacks.
pub proof fn lemma_mutable_cells_hold_missing_values(
    input: Seq<u8>,
    n: usize,
    s: State,
    t: State,
)
    requires
        constructed_from(s, input, n),
        permutes_mutable(s, t),
    ensures
        forall|v: u8| #[trigger] t.mutable_values().contains(v) <==> missing_values(
            input,
            (n * n) as int,
        ).contains(v),
        forall|k1: int, k2: int|
            0 <= k1 < k2 < t.mutable_values().len() ==> t.mutable_values()[k1]
                != t.mutable_values()[k2],
        t.mutable_values().len() == missing_values(input, (n * n) as int).len(),
{
    assert forall|k1: int, k2: int|
        0 <= k1 < k2 < t.mutable_values().len() implies t.mutable_values()[k1]
        != t.mutable_values()[k2] by {
        assert(t.assignments@[k1] < t.assignments@[k2]);
        assert(t.mutable_values()[k1] == t.board@[t.assignments@[k1] as int]);
        assert(t.mutable_values()[k2] == t.board@[t.assignments@[k2] as int]);
    }
}

/// Fixed cells are never disturbed: a state constructed from `input` and
/// then mutated by anything satisfying `permutes_mutable` still shows
/// `input`'s nonzero values at their cells.
pub proof fn lemma_fixed_cells_keep_input_values(input: Seq<u8>, n: usize, s: State, t: State)
    requires
        constructed_from(s, input, n),
        permutes_mutable(s, t),
    ensures
        forall|i: int| 0 <= i < input.len() && input[i] != 0 ==> t.board@[i] == input[i],
{
    assert forall|i: int|
        0 <= i < input.len() && input[i] != 0 implies t.board@[i] == input[i] by {
        assert(!s.is_mutable_pos(i));
    }
}

/// `permutes_mutable` chains across successive mutations.
pub proof fn lemma_permutes_mutable_trans(a: State, b: State, c: State)
    requires
        permutes_mutable(a, b),
        permutes_mutable(b, c),
    ensures
        permutes_mutable(a, c),
{
    assert forall|i: int|
        0 <= i < a.board@.len() && !a.is_mutable_pos(i) implies c.board@[i] == a.board@[i] by {
        assert(!b.is_mutable_pos(i));
    }
}

/// The score the board of `s` would have after exchanging the values at the
/// `a`-th and `b`-th mutable positions.
pub open spec fn candidate_score(s: State, a: int, b: int) -> nat {
    board_score(
        swapped(s.board@, s.assignments@[a] as int, s.assignments@[b] as int),
        s.n as int,
    )
}

/// Scan order of the pairwise-swap neighbourhood: the pair `(x, y)` is
/// examined before the pair `(a, b)`.
pub open spec fn pair_before(x: int, y: int, a: int, b: int) -> bool {
    x < a || (x == a && y < b)
}

/// Relies on `rand::RngExt::random_range` over the thread-local generator of
/// `rand::rng`: the draw lands in the given nonempty range. Nothing more is
/// assumed of a random draw.
#[verifier::external_body]
fn random_below(bound: usize) -> (r: usize)
    requires
        bound >= 1,
    ensures
        r < bound,
{
    rand::rng().random_range(0..bound)
}

impl State {
    /// Exchange the values stored at board indices `p` and `q`.
    fn swap_cells(&mut self, p: usize, q: usize)
        requires
            p < old(self).board@.len(),
            q < old(self).board@.len(),
        ensures
            final(self).board@ == swapped(old(self).board@, p as int, q as int),
            final(self).n == old(self).n,
            final(self).assignments@ == old(self).assignments@,
    {
        let vp = self.board[p];
        let vq = self.board[q];
        self.board.set(p, vq);
        self.board.set(q, vp);
    }

    /// Escape a plateau: reshuffle the values stored at the mutable
    /// positions uniformly, leaving every fixed cell untouched, and return
    /// the score of the reshuffled board.
    pub fn random_start(&mut self) -> (r: usize)
        requires
            old(self).wf(),
        ensures
            permutes_mutable(*old(self), *final(self)),
            r == board_score(final(self).board@, final(self).n as int),
    {
        let ghost orig = *self;
        let mut i: usize = self.assignments.len();
        while i >= 2
            invariant
                orig.wf(),
                permutes_mutable(orig, *self),
                i <= self.assignments@.len(),
            decreases i,
        {
            i = i - 1;
            let j = random_below(i);
            let ghost mid = *self;
            let p = self.assignments[i];
            let q = self.assignments[j];
            self.swap_cells(p, q);
            proof {
                lemma_swap_mutable(mid, *self, i as int, j as int);
                lemma_permutes_mutable_trans(orig, mid, *self);
            }
        }
        self.score()
    }

    /// Examine every pair of distinct mutable positions in scan order, and
    /// commit the single swap that improves the score the most — on a tie,
    /// the earliest examined one. `start_score` must be the board's true
    /// current score; the returned score is the best over the whole
    /// neighbourhood, and equals `start_score` exactly when no swap improves
    /// on it, in which case the board is left unchanged.
    pub fn step(&mut self, start_score: usize) -> (r: usize)
        requires
            old(self).wf(),
            start_score == board_score(old(self).board@, old(self).n as int),
        ensures
            permutes_mutable(*old(self), *final(self)),
            r >= start_score,
            r == board_score(final(self).board@, final(self).n as int),
            forall|x: int, y: int|
                0 <= x < y < old(self).assignments@.len() ==> #[trigger] candidate_score(
                    *old(self),
                    x,
                    y,
                ) <= r,
            r == start_score ==> final(self).board@ == old(self).board@,
            r > start_score ==> exists|a: int, b: int|
                {
                    &&& 0 <= a < b < old(self).assignments@.len()
                    &&& final(self).board@ == swapped(
                        old(self).board@,
                        old(self).assignments@[a] as int,
                        old(self).assignments@[b] as int,
                    )
                    &&& #[trigger] candidate_score(*old(self), a, b) == r
                    &&& forall|x: int, y: int|
                        0 <= x < y < old(self).assignments@.len() && pair_before(x, y, a, b)
                            ==> #[trigger] candidate_score(*old(self), x, y) < r
                },
    {
        let ghost orig = *self;
        let klen = self.assignments.len();
        let mut high = start_score;
        let mut best_a: usize = 0;
        let mut best_b: usize = 0;
        let mut found = false;
        let mut a: usize = 0;
        while a < klen
            invariant
                orig.wf(),
                self.n == orig.n,
                self.assignments@ == orig.assignments@,
                self.board@ == orig.board@,
                klen == orig.assignments@.len(),
                a <= klen,
                start_score == board_score(orig.board@, orig.n as int),
                high >= start_score,
                forall|x: int, y: int|
                    0 <= x < y < klen && x < a ==> #[trigger] candidate_score(orig, x, y) <= high,
                !found ==> high == start_score,
                found ==> 0 <= best_a < best_b < klen && best_a < a,
                found ==> candidate_score(orig, best_a as int, best_b as int) == high && high
                    > start_score,
                found ==> forall|x: int, y: int|
                    0 <= x < y < klen && pair_before(x, y, best_a as int, best_b as int)
                        ==> #[trigger] candidate_score(orig, x, y) < high,
            decreases klen - a,
        {
            let mut b: usize = a + 1;
            while b < klen
                invariant
                    orig.wf(),
                    self.n == orig.n,
                    self.assignments@ == orig.assignments@,
                    self.board@ == orig.board@,
                    klen == orig.assignments@.len(),
                    a < klen,
                    a + 1 <= b <= klen,
                    start_score == board_score(orig.board@, orig.n as int),
                    high >= start_score,
                    forall|x: int, y: int|
                        0 <= x < y < klen && pair_before(x, y, a as int, b as int)
                            ==> #[trigger] candidate_score(orig, x, y) <= high,
                    !found ==> high == start_score,
                    found ==> 0 <= best_a < best_b < klen,
                    found ==> pair_before(best_a as int, best_b as int, a as int, b as int),
                    found ==> candidate_score(orig, best_a as int, best_b as int) == high && high
                        > start_score,
                    found ==> forall|x: int, y: int|
                        0 <= x < y < klen && pair_before(x, y, best_a as int, best_b as int)
                            ==> #[trigger] candidate_score(orig, x, y) < high,
                decreases klen - b,
            {
                let p = self.assignments[a];
                let q = self.assignments[b];
                let ghost pre = *self;
                self.swap_cells(p, q);
                proof {
                    lemma_swap_mutable(pre, *self, a as int, b as int);
                }
                let sc = self.score();
                if sc > high {
                    high = sc;
                    best_a = a;
                    best_b = b;
                    found = true;
                }
                self.swap_cells(p, q);
                proof {
                    lemma_swapped_involutive(orig.board@, p as int, q as int);
                }
                b += 1;
            }
            a += 1;
        }
        if found {
            let p = self.assignments[best_a];
            let q = self.assignments[best_b];
            self.swap_cells(p, q);
            proof {
                lemma_swap_mutable(orig, *self, best_a as int, best_b as int);
            }
            high
        } else {
            high
        }
    }

    /// Run the full controller: restart at a fresh random arrangement, then
    /// step until a plateau, over and over, until the score reaches its
    /// maximum `n * n - 1`. The restarts are random draws, so no number of
    /// cycles that surely suffices can be promised; the loop gives up after
    /// `u64::MAX` restart cycles, a bound no real run reaches, and the
    /// result reports whether the board was driven to a solution. What is
    /// promised whatever the draws return: a board whose score already is
    /// the maximum comes back `true` untouched, and a `false` report is
    /// given only at a pairwise-swap local optimum — no single swap of two
    /// mutable cells scores higher than the board handed back.
    pub fn hillclimb(&mut self) -> (solved: bool)
        requires
            old(self).wf(),
        ensures
            permutes_mutable(*old(self), *final(self)),
            solved <==> board_score(final(self).board@, final(self).n as int) == final(self).board@.len() - 1,
            board_score(old(self).board@, old(self).n as int) == old(self).board@.len() - 1
                ==> solved && *final(self) == *old(self),
            !solved ==> forall|x: int, y: int|
                0 <= x < y < final(self).assignments@.len() ==> #[trigger] candidate_score(
                    *final(self),
                    x,
                    y,
                ) <= board_score(final(self).board@, final(self).n as int),
    {
        let ghost orig = *self;
        let target = self.max_score();
        let mut high_score = self.score();
        let mut fuel: u64 = u64::MAX;
        while high_score != target && fuel > 0
            invariant
                orig.wf(),
                permutes_mutable(orig, *self),
                target == orig.board@.len() - 1,
                self.board@.len() == orig.board@.len(),
                high_score == board_score(self.board@, self.n as int),
                board_score(orig.board@, orig.n as int) == target ==> *self == orig,
                fuel < u64::MAX ==> forall|x: int, y: int|
                    0 <= x < y < self.assignments@.len() ==> #[trigger] candidate_score(
                        *self,
                        x,
                        y,
                    ) <= high_score,
            decreases fuel,
        {
            fuel = fuel - 1;
            let ghost before = *self;
            high_score = self.random_start();
            proof {
                lemma_permutes_mutable_trans(orig, before, *self);
            }
            let ghost restarted = *self;
            let mut round = self.step(high_score);
            proof {
                lemma_permutes_mutable_trans(orig, restarted, *self);
                lemma_score_at_most_max(*self);
                if round <= high_score {
                    assert(self.board@ == restarted.board@);
                    assert(self.assignments@ == restarted.assignments@);
                    assert forall|x: int, y: int|
                        0 <= x < y < self.assignments@.len() implies #[trigger] candidate_score(
                        *self,
                        x,
                        y,
                    ) <= round by {
                        assert(candidate_score(restarted, x, y) <= round);
                    }
                }
            }
            while round > high_score
                invariant
                    orig.wf(),
                    permutes_mutable(orig, *self),
                    self.board@.len() == orig.board@.len(),
                    round >= high_score,
                    round == board_score(self.board@, self.n as int),
                    round <= self.board@.len() - 1,
                    round <= high_score ==> forall|x: int, y: int|
                        0 <= x < y < self.assignments@.len() ==> #[trigger] candidate_score(
                            *self,
                            x,
                            y,
                        ) <= round,
                decreases self.board@.len() - 1 - high_score,
            {
                high_score = round;
                let ghost mid = *self;
                round = self.step(high_score);
                proof {
                    lemma_permutes_mutable_trans(orig, mid, *self);
                    lemma_score_at_most_max(*self);
                    if round <= high_score {
                        assert(self.board@ == mid.board@);
                        assert(self.assignments@ == mid.assignments@);
                        assert forall|x: int, y: int|
                            0 <= x < y < self.assignments@.len() implies #[trigger] candidate_score(
                            *self,
                            x,
                            y,
                        ) <= round by {
                            assert(candidate_score(mid, x, y) <= round);
                        }
                    }
                }
            }
        }
        high_score == target
    }
}

} // verus!
