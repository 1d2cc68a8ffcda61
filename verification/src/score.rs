//! Adjacency scoring: how many of the consecutive-value pairs `(k, k + 1)`
//! sit on king's-move adjacent cells. Every unordered adjacency is counted
//! exactly once, from its row-major earlier endpoint, by looking only at the
//! four "forward" neighbours: right, below-left, below, below-right.

use vstd::prelude::*;

use crate::board::State;

verus! {

/// Two cell values satisfy an adjacency when they are consecutive integers.
pub open spec fn adjacent_values(v: int, w: int) -> bool {
    w == v + 1 || v == w + 1
}

/// 1 when `j` is a real board index whose value is consecutive with the value
/// at `i`, else 0.
pub open spec fn pair_hit(b: Seq<u8>, i: int, j: int) -> nat {
    if 0 <= j < b.len() && adjacent_values(b[i] as int, b[j] as int) {
        1nat
    } else {
        0nat
    }
}

/// The contribution of cell `i` to the score: its satisfied adjacencies with
/// the forward neighbours that exist on an `n`-wide board. `i + n` is the
/// cell directly below; `i + n - 1` below-left unless `i` is in the leftmost
/// column; `i + 1` right and `i + n + 1` below-right unless `i` is in the
/// rightmost column.
pub open spec fn cell_score(b: Seq<u8>, n: int, i: int) -> nat {
    (pair_hit(b, i, i + n) + (if i % n != 0 {
        pair_hit(b, i, i + n - 1)
    } else {
        0nat
    }) + (if i % n != n - 1 {
        pair_hit(b, i, i + 1) + pair_hit(b, i, i + n + 1)
    } else {
        0nat
    })) as nat
}

/// The score accumulated over the first `k` cells.
pub open spec fn score_upto(b: Seq<u8>, n: int, k: int) -> nat
    decreases k,
{
    if k <= 0 {
        0nat
    } else {
        (score_upto(b, n, k - 1) + cell_score(b, n, k - 1)) as nat
    }
}

/// The score of the whole board.
pub open spec fn board_score(b: Seq<u8>, n: int) -> nat {
    score_upto(b, n, b.len() as int)
}

/// Distinct cell values everywhere: the part of well-formedness that the
/// score bound rests on.
pub open spec fn distinct_cells(b: Seq<u8>) -> bool {
    forall|i: int, j: int| 0 <= i < j < b.len() ==> b[i] != b[j]
}

/// Whether `j` is one of the forward neighbours that `cell_score` examines
/// at `i`, holding a value consecutive with the one at `i`.
pub open spec fn forward_hit(b: Seq<u8>, n: int, i: int, j: int) -> bool {
    &&& 0 <= i < b.len()
    &&& 0 <= j < b.len()
    &&& adjacent_values(b[i] as int, b[j] as int)
    &&& (j == i + n || (i % n != 0 && j == i + n - 1) || (i % n != n - 1 && (j == i + 1 || j == i
        + n + 1)))
}

/// The smaller of the two consecutive values at a counted adjacency: the
/// label under which that adjacency is counted once.
pub open spec fn lower_value(b: Seq<u8>, i: int, j: int) -> int {
    if b[i] < b[j] {
        b[i] as int
    } else {
        b[j] as int
    }
}

/// The label of the adjacency between `i` and `j`, when it is counted under
/// the given column guard.
spec fn hit_label(b: Seq<u8>, i: int, j: int, guard: bool) -> Set<int> {
    if guard && 0 <= j < b.len() && adjacent_values(b[i] as int, b[j] as int) {
        set![lower_value(b, i, j)]
    } else {
        Set::empty()
    }
}

/// The labels of all adjacencies counted at cell `i`.
spec fn cell_hits(b: Seq<u8>, n: int, i: int) -> Set<int> {
    hit_label(b, i, i + n, true).union(hit_label(b, i, i + n - 1, i % n != 0)).union(
        hit_label(b, i, i + 1, i % n != n - 1),
    ).union(hit_label(b, i, i + n + 1, i % n != n - 1))
}

/// Disjoint finite sets add their sizes under union.
proof fn lemma_disjoint_union_len(a: Set<int>, b: Set<int>)
    requires
        a.finite(),
        b.finite(),
        a.disjoint(b),
    ensures
        a.union(b).finite(),
        a.union(b).len() == a.len() + b.len(),
    decreases b.len(),
{
    broadcast use vstd::set::group_set_axioms;

    if b.len() == 0 {
        b.lemma_len0_is_empty();
        assert(a.union(b) =~= a);
    } else {
        let y = b.choose();
        assert(b.contains(y));
        let b2 = b.remove(y);
        assert(a.disjoint(b2));
        lemma_disjoint_union_len(a, b2);
        assert(a.union(b) =~= a.union(b2).insert(y));
        assert(!a.union(b2).contains(y));
    }
}

/// Each label counted at cell `i` comes from a forward neighbour beyond `i`.
proof fn lemma_cell_hits_member(b: Seq<u8>, n: int, i: int, k: int)
    requires
        1 <= n,
        0 <= i < b.len(),
        cell_hits(b, n, i).contains(k),
    ensures
        exists|j: int| #[trigger] forward_hit(b, n, i, j) && lower_value(b, i, j) == k && i < j,
{
    broadcast use vstd::set::group_set_axioms;

    if hit_label(b, i, i + n, true).contains(k) {
        assert(forward_hit(b, n, i, i + n) && lower_value(b, i, i + n) == k);
    } else if hit_label(b, i, i + n - 1, i % n != 0).contains(k) {
        assert(i % n != 0);
        assert(n >= 2) by {
            if n == 1 {
                assert(i % 1 == 0) by (nonlinear_arith);
            }
        }
        assert(forward_hit(b, n, i, i + n - 1) && lower_value(b, i, i + n - 1) == k);
    } else if hit_label(b, i, i + 1, i % n != n - 1).contains(k) {
        assert(forward_hit(b, n, i, i + 1) && lower_value(b, i, i + 1) == k);
    } else {
        assert(hit_label(b, i, i + n + 1, i % n != n - 1).contains(k));
        assert(forward_hit(b, n, i, i + n + 1) && lower_value(b, i, i + n + 1) == k);
    }
}

/// Counting at one cell: with pairwise distinct values, the labels counted
/// at `i` are as many as `cell_score` adds there, and each lies in
/// `1..=b.len() - 1` when the values lie in `1..=b.len()`.
proof fn lemma_cell_hits_len(b: Seq<u8>, n: int, i: int)
    requires
        1 <= n,
        0 <= i < b.len(),
        distinct_cells(b),
    ensures
        cell_hits(b, n, i).finite(),
        cell_hits(b, n, i).len() == cell_score(b, n, i),
{
    broadcast use vstd::set::group_set_axioms;

    let h0 = hit_label(b, i, i + n, true);
    let h1 = hit_label(b, i, i + n - 1, i % n != 0);
    let h2 = hit_label(b, i, i + 1, i % n != n - 1);
    let h3 = hit_label(b, i, i + n + 1, i % n != n - 1);
    if n == 1 {
        assert(i % 1 == 0) by (nonlinear_arith)
            requires
                0 <= i,
        ;
    }
    if n == 2 {
        assert(i % 2 == 0 || i % 2 == 1) by (nonlinear_arith)
            requires
                0 <= i,
        ;
    }
    assert forall|j1: int, j2: int|
        #![trigger lower_value(b, i, j1), lower_value(b, i, j2)]
        0 <= j1 < b.len() && 0 <= j2 < b.len() && j1 != j2 && adjacent_values(
            b[i] as int,
            b[j1] as int,
        ) && adjacent_values(b[i] as int, b[j2] as int) implies lower_value(b, i, j1)
        != lower_value(b, i, j2) by {
        assert(b[j1] != b[j2]);
    }
    assert(h0.disjoint(h1));
    lemma_disjoint_union_len(h0, h1);
    assert(h0.union(h1).disjoint(h2));
    lemma_disjoint_union_len(h0.union(h1), h2);
    assert(h0.union(h1).union(h2).disjoint(h3));
    lemma_disjoint_union_len(h0.union(h1).union(h2), h3);
    assert(h0.len() == pair_hit(b, i, i + n));
    assert(h1.len() == (if i % n != 0 {
        pair_hit(b, i, i + n - 1)
    } else {
        0nat
    }));
    assert(h2.len() == (if i % n != n - 1 {
        pair_hit(b, i, i + 1)
    } else {
        0nat
    }));
    assert(h3.len() == (if i % n != n - 1 {
        pair_hit(b, i, i + n + 1)
    } else {
        0nat
    }));
}

/// Each adjacency label is claimed by at most one cell: two distinct cells
/// never count the same consecutive-value pair, because the two values of
/// that pair sit on exactly one pair of cells, scanned from its earlier
/// endpoint alone.
proof fn lemma_cells_disjoint(b: Seq<u8>, n: int, i1: int, i2: int)
    requires
        1 <= n,
        distinct_cells(b),
        0 <= i1 < i2 < b.len(),
    ensures
        cell_hits(b, n, i1).disjoint(cell_hits(b, n, i2)),
{
    assert forall|k: int| #[trigger]
        cell_hits(b, n, i1).contains(k) implies !cell_hits(b, n, i2).contains(k) by {
        if cell_hits(b, n, i2).contains(k) {
            lemma_cell_hits_member(b, n, i1, k);
            lemma_cell_hits_member(b, n, i2, k);
            let j1 = choose|j: int|
                #[trigger] forward_hit(b, n, i1, j) && lower_value(b, i1, j) == k && i1 < j;
            let j2 = choose|j: int|
                #[trigger] forward_hit(b, n, i2, j) && lower_value(b, i2, j) == k && i2 < j;
            if b[i1] as int == k {
                if b[i2] as int == k {
                    assert(b[i1] != b[i2]);
                } else {
                    assert(b[j2] as int == k);
                    assert(j2 != i1);
                    assert(b[j2] != b[i1]);
                }
            } else {
                assert(b[j1] as int == k && b[i1] as int == k + 1);
                if b[i2] as int == k + 1 {
                    assert(b[i1] != b[i2]);
                } else {
                    assert(b[i2] as int == k && b[j2] as int == k + 1);
                    assert(j2 != i1);
                    assert(b[j2] != b[i1]);
                }
            }
        }
    }
}

/// The labels counted by the first `m` cells.
spec fn hits_upto(b: Seq<u8>, n: int, m: int) -> Set<int>
    decreases m,
{
    if m <= 0 {
        Set::empty()
    } else {
        hits_upto(b, n, m - 1).union(cell_hits(b, n, m - 1))
    }
}

/// Accumulation: since no two cells count the same label, the partial score
/// equals the number of distinct labels counted so far.
proof fn lemma_hits_upto_len(b: Seq<u8>, n: int, m: int)
    requires
        1 <= n,
        distinct_cells(b),
        0 <= m <= b.len(),
    ensures
        hits_upto(b, n, m).finite(),
        hits_upto(b, n, m).len() == score_upto(b, n, m),
        forall|k: int|
            #[trigger] hits_upto(b, n, m).contains(k) ==> exists|i: int|
                0 <= i < m && #[trigger] cell_hits(b, n, i).contains(k),
    decreases m,
{
    broadcast use vstd::set::group_set_axioms;

    if m > 0 {
        lemma_hits_upto_len(b, n, m - 1);
        lemma_cell_hits_len(b, n, m - 1);
        assert(hits_upto(b, n, m - 1).disjoint(cell_hits(b, n, m - 1))) by {
            assert forall|k: int| #[trigger]
                hits_upto(b, n, m - 1).contains(k) implies !cell_hits(b, n, m - 1).contains(
                k,
            ) by {
                let i = choose|i: int|
                    0 <= i < m - 1 && #[trigger] cell_hits(b, n, i).contains(k);
                lemma_cells_disjoint(b, n, i, m - 1);
            }
        }
        lemma_disjoint_union_len(hits_upto(b, n, m - 1), cell_hits(b, n, m - 1));
        assert forall|k: int|
            #[trigger] hits_upto(b, n, m).contains(k) implies exists|i: int|
            0 <= i < m && #[trigger] cell_hits(b, n, i).contains(k) by {
            if hits_upto(b, n, m - 1).contains(k) {
                let i = choose|i: int|
                    0 <= i < m - 1 && #[trigger] cell_hits(b, n, i).contains(k);
                assert(cell_hits(b, n, i).contains(k));
            } else {
                assert(cell_hits(b, n, m - 1).contains(k));
            }
        }
    }
}

/// The score never exceeds `n * n - 1`: every counted adjacency is labelled
/// by the smaller of its two consecutive values, distinct adjacencies carry
/// distinct labels, and only `n * n - 1` labels exist. `max_score` is thus a
/// true maximum.
pub proof fn lemma_score_at_most_max(s: State)
    requires
        s.wf(),
    ensures
        board_score(s.board@, s.n as int) <= s.board@.len() - 1,
{
    let b = s.board@;
    let n = s.n as int;
    let len = b.len() as int;
    assert(len >= 1) by (nonlinear_arith)
        requires
            len == n * n && n >= 1,
    ;
    lemma_hits_upto_len(b, n, len);
    let u = hits_upto(b, n, len);
    assert forall|k: int| u.contains(k) implies vstd::set_lib::set_int_range(1, len).contains(
        k,
    ) by {
        let i = choose|i: int| 0 <= i < len && #[trigger] cell_hits(b, n, i).contains(k);
        lemma_cell_hits_member(b, n, i, k);
        let j = choose|j: int|
            #[trigger] forward_hit(b, n, i, j) && lower_value(b, i, j) == k && i < j;
        assert(1 <= b[i] <= len && 1 <= b[j] <= len);
    }
    vstd::set_lib::lemma_int_range(1, len);
    vstd::set_lib::lemma_len_subset(u, vstd::set_lib::set_int_range(1, len));
}

/// Whether the values `v` and `w` are consecutive integers.
fn values_adjacent(v: u8, w: u8) -> (r: bool)
    ensures
        r == adjacent_values(v as int, w as int),
{
    if w > v {
        w - v == 1
    } else {
        v - w == 1
    }
}

impl State {
    /// Count the consecutive-value pairs that sit on king's-move adjacent
    /// cells of the current board.
    pub fn score(&self) -> (r: usize)
        requires
            self.wf(),
        ensures
            r == board_score(self.board@, self.n as int),
    {
        let n = self.n;
        let len = self.board.len();
        proof {
            assert(n * n <= 225) by (nonlinear_arith)
                requires
                    n <= 15,
            ;
        }
        let mut total: usize = 0;
        let mut idx: usize = 0;
        while idx < len
            invariant
                self.wf(),
                n == self.n,
                len == self.board@.len(),
                len <= 225,
                idx <= len,
                total == score_upto(self.board@, n as int, idx as int),
                total <= 4 * idx,
            decreases len - idx,
        {
            let v = self.board[idx];
            let mut c: usize = 0;
            if idx + n < len && values_adjacent(v, self.board[idx + n]) {
                c += 1;
            }
            if idx % n != 0 && idx + n - 1 < len && values_adjacent(v, self.board[idx + n - 1]) {
                c += 1;
            }
            if idx % n != n - 1 {
                if idx + 1 < len && values_adjacent(v, self.board[idx + 1]) {
                    c += 1;
                }
                if idx + n + 1 < len && values_adjacent(v, self.board[idx + n + 1]) {
                    c += 1;
                }
            }
            assert(c == cell_score(self.board@, n as int, idx as int));
            total += c;
            idx += 1;
        }
        total
    }

    /// The highest score any board of this size can reach: one for each of
    /// the `n * n - 1` consecutive-value pairs.
    pub fn max_score(&self) -> (r: usize)
        requires
            self.wf(),
        ensures
            r == self.board@.len() - 1,
    {
        proof {
            assert(self.n * self.n >= 1) by (nonlinear_arith)
                requires
                    self.n >= 1,
            ;
        }
        self.board.len() - 1
    }
}

} // verus!
