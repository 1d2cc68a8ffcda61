//! The board data container: a flat value vector, its grid width, and the
//! list of mutable cell positions, together with the construction routine
//! that fills the empty cells deterministically.

use vstd::prelude::*;

verus! {

/// The one construction-time failure: the supplied value sequence does not
/// have length `n * n`.
#[derive(Debug, Clone, Copy, PartialEq, Eq, Structural)]
pub enum KingsWalkError {
    BoardLength,
}

/// A filled game board: `board` holds a permutation of `1..=n*n` laid out
/// row-major with width `n`, and `assignments` lists the indices whose value
/// was unspecified at construction and may be permuted by the search.
#[derive(Debug, Clone)]
pub struct State {
    pub board: Vec<u8>,
    pub n: usize,
    pub assignments: Vec<usize>,
}

impl State {
    /// Well-formedness: the central invariant. The board has `n * n` cells
    /// holding pairwise distinct values of `1..=n*n`, and the mutable
    /// positions are strictly increasing in-range indices.
    pub open spec fn wf(&self) -> bool {
        &&& 1 <= self.n <= 15
        &&& self.board@.len() == self.n * self.n
        &&& forall|i: int|
            0 <= i < self.board@.len() ==> 1 <= #[trigger] self.board@[i] <= self.n * self.n
        &&& forall|i: int, j: int|
            0 <= i < j < self.board@.len() ==> self.board@[i] != self.board@[j]
        &&& forall|k: int|
            0 <= k < self.assignments@.len() ==> #[trigger] self.assignments@[k] < self.board@.len()
        &&& forall|k1: int, k2: int|
            0 <= k1 < k2 < self.assignments@.len() ==> self.assignments@[k1]
                < self.assignments@[k2]
    }

    /// Whether board index `i` is one of the mutable positions.
    pub open spec fn is_mutable_pos(&self, i: int) -> bool {
        exists|k: int| 0 <= k < self.assignments@.len() && #[trigger] self.assignments@[k] == i
    }

    /// The values currently stored at the mutable positions, in position order.
    pub open spec fn mutable_values(&self) -> Seq<u8> {
        Seq::new(self.assignments@.len(), |k: int| self.board@[self.assignments@[k] as int])
    }
}

/// What construction accepts beyond the length check: every supplied value is
/// at most `n * n` (zero marks an empty cell), and the nonzero values are
/// pairwise distinct.
pub open spec fn valid_input(input: Seq<u8>, n: usize) -> bool {
    &&& forall|i: int| 0 <= i < input.len() ==> #[trigger] input[i] <= n * n
    &&& forall|i: int, j: int|
        0 <= i < j < input.len() && input[i] != 0 ==> input[i] != input[j]
}

/// The values of `1..=bound` that `input` does not contain, in increasing
/// order.
pub open spec fn missing_values(input: Seq<u8>, bound: int) -> Seq<u8>
    decreases bound,
{
    if bound <= 0 {
        Seq::empty()
    } else if input.contains(bound as u8) {
        missing_values(input, bound - 1)
    } else {
        missing_values(input, bound - 1).push(bound as u8)
    }
}

/// How construction relates the returned state to the caller's data: the
/// nonzero cells keep their value, the zero cells are exactly the mutable
/// positions, and they received the values absent from the input, in
/// increasing value order matched to increasing position order.
pub open spec fn constructed_from(s: State, input: Seq<u8>, n: usize) -> bool {
    &&& s.wf()
    &&& s.n == n
    &&& s.board@.len() == input.len()
    &&& forall|i: int| 0 <= i < input.len() && input[i] != 0 ==> s.board@[i] == input[i]
    &&& forall|i: int| 0 <= i < input.len() ==> ((input[i] == 0) <==> s.is_mutable_pos(i))
    &&& s.mutable_values() == missing_values(input, (n * n) as int)
}

/// How many entries of `s` are nonzero.
pub open spec fn num_nonzero(s: Seq<u8>) -> int
    decreases s.len(),
{
    if s.len() == 0 {
        0
    } else {
        num_nonzero(s.drop_last()) + if s.last() != 0 {
            1int
        } else {
            0int
        }
    }
}

/// Appending one element extends `contains` by exactly that element.
proof fn lemma_contains_push(s: Seq<u8>, x: u8, v: u8)
    ensures
        s.push(x).contains(v) <==> (s.contains(v) || v == x),
{
    if s.contains(v) {
        let i = choose|i: int| 0 <= i < s.len() && s[i] == v;
        assert(s.push(x)[i] == v);
    }
    if v == x {
        assert(s.push(x)[s.len() as int] == v);
    }
    if s.push(x).contains(v) {
        let i = choose|i: int| 0 <= i < s.push(x).len() && s.push(x)[i] == v;
        if i < s.len() {
            assert(s[i] == v);
        }
    }
}

/// Appending one nonzero element counts it as nonzero.
proof fn lemma_num_nonzero_push(s: Seq<u8>, x: u8)
    ensures
        num_nonzero(s.push(x)) == num_nonzero(s) + if x != 0 {
            1int
        } else {
            0int
        },
{
    assert(s.push(x).drop_last() =~= s);
    assert(s.push(x).last() == x);
}

/// The missing values are exactly the uncontained values of `1..=bound`,
/// listed in strictly increasing order.
proof fn lemma_missing_props(s: Seq<u8>, bound: int)
    requires
        0 <= bound <= 255,
    ensures
        forall|k: int|
            0 <= k < missing_values(s, bound).len() ==> 1 <= #[trigger] missing_values(s, bound)[k]
                <= bound && !s.contains(missing_values(s, bound)[k]),
        forall|k1: int, k2: int|
            0 <= k1 < k2 < missing_values(s, bound).len() ==> missing_values(s, bound)[k1]
                < missing_values(s, bound)[k2],
    decreases bound,
{
    if bound > 0 {
        lemma_missing_props(s, bound - 1);
        let prev = missing_values(s, bound - 1);
        if !s.contains(bound as u8) {
            assert(missing_values(s, bound) == prev.push(bound as u8));
            assert forall|k: int| 0 <= k < missing_values(s, bound).len() implies 1
                <= #[trigger] missing_values(s, bound)[k] <= bound && !s.contains(
                missing_values(s, bound)[k],
            ) by {
                if k < prev.len() {
                    assert(missing_values(s, bound)[k] == prev[k]);
                } else {
                    assert(missing_values(s, bound)[k] == bound as u8);
                }
            }
            assert forall|k1: int, k2: int|
                0 <= k1 < k2 < missing_values(s, bound).len() implies missing_values(s, bound)[k1]
                < missing_values(s, bound)[k2] by {
                if k2 < prev.len() {
                    assert(missing_values(s, bound)[k1] == prev[k1]);
                    assert(missing_values(s, bound)[k2] == prev[k2]);
                } else {
                    assert(missing_values(s, bound)[k1] == prev[k1]);
                    assert(prev[k1] <= bound - 1);
                    assert(missing_values(s, bound)[k2] == bound as u8);
                }
            }
        }
    }
}

/// Raising the bound only appends further missing values: the shorter list
/// is a prefix of the longer one.
proof fn lemma_missing_prefix(s: Seq<u8>, b1: int, b2: int)
    requires
        b1 <= b2,
    ensures
        missing_values(s, b1).len() <= missing_values(s, b2).len(),
        forall|k: int|
            0 <= k < missing_values(s, b1).len() ==> #[trigger] missing_values(s, b2)[k]
                == missing_values(s, b1)[k],
    decreases b2 - b1,
{
    if b1 < b2 {
        lemma_missing_prefix(s, b1, b2 - 1);
    }
}

/// Appending a fresh nonzero element removes exactly one value from the
/// missing list when that element is within the bound.
proof fn lemma_missing_push_len(s: Seq<u8>, x: u8, bound: int)
    requires
        !s.contains(x),
        x >= 1,
        0 <= bound <= 255,
    ensures
        missing_values(s.push(x), bound).len() == missing_values(s, bound).len() - if x <= bound {
            1int
        } else {
            0int
        },
    decreases bound,
{
    lemma_contains_push(s, x, bound as u8);
    if bound > 0 {
        lemma_missing_push_len(s, x, bound - 1);
    }
}

/// On the empty sequence every value of `1..=bound` is missing.
proof fn lemma_missing_empty(bound: int)
    requires
        0 <= bound,
    ensures
        missing_values(Seq::<u8>::empty(), bound).len() == bound,
    decreases bound,
{
    if bound > 0 {
        lemma_missing_empty(bound - 1);
    }
}

/// Appending a zero leaves the missing list unchanged: zero is no value.
proof fn lemma_missing_zero_push(s: Seq<u8>, bound: int)
    requires
        0 <= bound <= 255,
    ensures
        missing_values(s.push(0), bound) == missing_values(s, bound),
    decreases bound,
{
    lemma_contains_push(s, 0, bound as u8);
    if bound > 0 {
        lemma_missing_zero_push(s, bound - 1);
    }
}

/// Counting: when the nonzero entries are pairwise distinct and every entry
/// is at most `bound`, the missing list has one value for each zero entry.
proof fn lemma_missing_count(s: Seq<u8>, bound: int)
    requires
        0 <= bound <= 255,
        forall|i: int| 0 <= i < s.len() ==> #[trigger] s[i] <= bound,
        forall|i: int, j: int| 0 <= i < j < s.len() && s[i] != 0 ==> s[i] != s[j],
    ensures
        missing_values(s, bound).len() == bound - num_nonzero(s),
    decreases s.len(),
{
    if s.len() == 0 {
        assert(s =~= Seq::<u8>::empty());
        lemma_missing_empty(bound);
    } else {
        let s0 = s.drop_last();
        let x = s.last();
        assert(forall|i: int| 0 <= i < s0.len() ==> s0[i] == s[i]);
        lemma_missing_count(s0, bound);
        assert(s =~= s0.push(x));
        if x == 0 {
            lemma_missing_zero_push(s0, bound);
        } else {
            assert(!s0.contains(x)) by {
                if s0.contains(x) {
                    let i = choose|i: int| 0 <= i < s0.len() && s0[i] == x;
                    assert(s[i] == x && s[s.len() - 1] == x);
                }
            }
            lemma_missing_push_len(s0, x, bound);
        }
    }
}

/// One fill step: writing the next missing value at the `k`-th open position
/// extends the filled prefix by one.
proof fn lemma_fill_step(
    input: Seq<u8>,
    asg: Seq<usize>,
    pre_board: Seq<u8>,
    post_board: Seq<u8>,
    k: int,
    next: int,
)
    requires
        0 <= k < asg.len(),
        forall|k1: int, k2: int| 0 <= k1 < k2 < asg.len() ==> asg[k1] < asg[k2],
        forall|kk: int| 0 <= kk < asg.len() ==> #[trigger] asg[kk] < pre_board.len(),
        1 <= next <= 255,
        !input.contains(next as u8),
        missing_values(input, next - 1).len() == k,
        forall|j: int|
            0 <= j < k ==> pre_board[#[trigger] asg[j] as int] == missing_values(input, next - 1)[j],
        post_board == pre_board.update(asg[k] as int, next as u8),
    ensures
        missing_values(input, next).len() == k + 1,
        forall|j: int|
            0 <= j < k + 1 ==> post_board[#[trigger] asg[j] as int] == missing_values(input, next)[j],
{
    assert(missing_values(input, next) == missing_values(input, next - 1).push(next as u8));
    assert forall|j: int|
        0 <= j < k + 1 implies post_board[#[trigger] asg[j] as int] == missing_values(input, next)[j] by {
        if j < k {
            assert(asg[j] < asg[k]);
            assert(post_board[asg[j] as int] == pre_board[asg[j] as int]);
            assert(missing_values(input, next)[j] == missing_values(input, next - 1)[j]);
        } else {
            assert(post_board[asg[k] as int] == next as u8);
        }
    }
}

/// When every open position has been filled, the state satisfies the full
/// construction contract.
proof fn lemma_construction_complete(s: State, input: Seq<u8>, n: usize, filled_bound: int)
    requires
        1 <= n <= 15,
        n * n <= 225,
        s.n == n,
        input.len() == n * n,
        s.board@.len() == n * n,
        valid_input(input, n),
        forall|kk: int| 0 <= kk < s.assignments@.len() ==> #[trigger] s.assignments@[kk] < n * n,
        forall|kk: int|
            0 <= kk < s.assignments@.len() ==> input[#[trigger] s.assignments@[kk] as int] == 0,
        forall|k1: int, k2: int|
            0 <= k1 < k2 < s.assignments@.len() ==> s.assignments@[k1] < s.assignments@[k2],
        forall|i: int| 0 <= i < n * n && input[i] == 0 ==> s.is_mutable_pos(i),
        missing_values(input, (n * n) as int).len() == s.assignments@.len(),
        0 <= filled_bound <= n * n,
        missing_values(input, filled_bound).len() == s.assignments@.len(),
        forall|j: int|
            0 <= j < s.assignments@.len() ==> s.board@[#[trigger] s.assignments@[j] as int]
                == missing_values(input, filled_bound)[j],
        forall|i: int| 0 <= i < n * n && input[i] != 0 ==> s.board@[i] == input[i],
    ensures
        constructed_from(s, input, n),
{
    let n_sq = (n * n) as int;
    let zlen = s.assignments@.len() as int;
    lemma_missing_prefix(input, filled_bound, n_sq);
    assert(missing_values(input, filled_bound) =~= missing_values(input, n_sq));
    lemma_missing_props(input, n_sq);
    let m = missing_values(input, n_sq);
    assert forall|i: int|
        0 <= i < n_sq implies 1 <= #[trigger] s.board@[i] <= n_sq && (input[i] == 0 ==> exists|j: int|
            0 <= j < zlen && #[trigger] s.assignments@[j] == i && s.board@[i] == m[j]) by {
        if input[i] == 0 {
            assert(s.is_mutable_pos(i));
            let j = choose|j: int| 0 <= j < zlen && #[trigger] s.assignments@[j] == i;
            assert(s.board@[i] == m[j]);
        } else {
            assert(s.board@[i] == input[i]);
        }
    }
    assert forall|i1: int, i2: int| 0 <= i1 < i2 < n_sq implies s.board@[i1] != s.board@[i2] by {
        if input[i1] != 0 && input[i2] != 0 {
            assert(s.board@[i1] == input[i1] && s.board@[i2] == input[i2]);
        } else if input[i1] != 0 && input[i2] == 0 {
            let j2 = choose|j: int|
                0 <= j < zlen && #[trigger] s.assignments@[j] == i2 && s.board@[i2] == m[j];
            assert(input.contains(input[i1]));
            assert(!input.contains(m[j2]));
        } else if input[i1] == 0 && input[i2] != 0 {
            let j1 = choose|j: int|
                0 <= j < zlen && #[trigger] s.assignments@[j] == i1 && s.board@[i1] == m[j];
            assert(input.contains(input[i2]));
            assert(!input.contains(m[j1]));
        } else {
            let j1 = choose|j: int|
                0 <= j < zlen && #[trigger] s.assignments@[j] == i1 && s.board@[i1] == m[j];
            let j2 = choose|j: int|
                0 <= j < zlen && #[trigger] s.assignments@[j] == i2 && s.board@[i2] == m[j];
            assert(j1 != j2);
            assert(m[j1] != m[j2]);
        }
    }
    assert(s.wf());
    assert forall|i: int| 0 <= i < n_sq && s.is_mutable_pos(i) implies input[i] == 0 by {
        let j = choose|j: int| 0 <= j < zlen && #[trigger] s.assignments@[j] == i;
        assert(input[s.assignments@[j] as int] == 0);
    }
    assert(s.mutable_values() =~= missing_values(input, n_sq));
}

impl State {
    /// Build a board from caller-supplied data: `board` lists the cell
    /// values row-major, with zero marking the cells left open, and `n` is
    /// the grid width. Fails exactly when the data's length is not `n * n`.
    /// On success the open cells, in position order, receive the values
    /// absent from the input in increasing order, making the board a full
    /// permutation of `1..=n*n`.
    pub fn new(board: Vec<u8>, n: usize) -> (result: Result<State, KingsWalkError>)
        requires
            1 <= n <= 15,
            board@.len() == n * n ==> valid_input(board@, n),
        ensures
            result is Err <==> board@.len() != n * n,
            result is Err ==> result == Err::<State, KingsWalkError>(KingsWalkError::BoardLength),
            result is Ok ==> constructed_from(result->Ok_0, board@, n),
    {
        proof {
            assert(n * n <= 225) by (nonlinear_arith)
                requires
                    n <= 15,
            ;
        }
        let n_sq = n * n;
        if board.len() != n_sq {
            return Err(KingsWalkError::BoardLength);
        }
        let ghost input = board@;
        let mut state = State { board, n, assignments: Vec::new() };
        let mut seen: Vec<bool> = Vec::new();
        let mut t: usize = 0;
        while t < n_sq + 1
            invariant
                t <= n_sq + 1,
                n_sq <= 225,
                seen@.len() == t,
                forall|v: int| 0 <= v < t ==> !(#[trigger] seen@[v]),
            decreases n_sq + 1 - t,
        {
            seen.push(false);
            t += 1;
        }
        // First scan: remember the open positions in encounter order and
        // mark every supplied value as taken.
        let mut idx: usize = 0;
        while idx < n_sq
            invariant
                n <= 15,
                n_sq == n * n,
                n_sq <= 225,
                state.n == n,
                state.board@ == input,
                input.len() == n_sq,
                valid_input(input, n),
                idx <= n_sq,
                seen@.len() == n_sq + 1,
                forall|v: int|
                    1 <= v <= n_sq ==> (#[trigger] seen@[v] <==> input.take(idx as int).contains(
                        v as u8,
                    )),
                forall|k: int|
                    0 <= k < state.assignments@.len() ==> #[trigger] state.assignments@[k] < idx,
                forall|k: int|
                    0 <= k < state.assignments@.len() ==> input[#[trigger] state.assignments@[k] as int]
                        == 0,
                forall|k1: int, k2: int|
                    0 <= k1 < k2 < state.assignments@.len() ==> state.assignments@[k1]
                        < state.assignments@[k2],
                forall|i: int| 0 <= i < idx && input[i] == 0 ==> state.is_mutable_pos(i),
                state.assignments@.len() + num_nonzero(input.take(idx as int)) == idx,
            decreases n_sq - idx,
        {
            let v = state.board[idx];
            let ghost pre_asg = state.assignments@;
            if v == 0 {
                state.assignments.push(idx);
            }
            seen.set(v as usize, true);
            proof {
                assert(input.take(idx + 1) =~= input.take(idx as int).push(input[idx as int]));
                lemma_num_nonzero_push(input.take(idx as int), input[idx as int]);
                assert forall|v2: int|
                    1 <= v2 <= n_sq implies (seen@[v2] <==> input.take(idx + 1).contains(
                    v2 as u8,
                )) by {
                    lemma_contains_push(input.take(idx as int), input[idx as int], v2 as u8);
                }
                if input[idx as int] == 0 {
                    assert forall|i: int| 0 <= i < idx + 1 && input[i] == 0 implies state.is_mutable_pos(
                        i,
                    ) by {
                        if i == idx {
                            assert(state.assignments@[pre_asg.len() as int] == idx);
                        } else {
                            let k = choose|k: int|
                                0 <= k < pre_asg.len() && pre_asg[k] == i;
                            assert(state.assignments@[k] == i);
                        }
                    }
                }
            }
            idx += 1;
        }
        proof {
            assert(input.take(n_sq as int) =~= input);
            lemma_missing_count(input, n_sq as int);
        }
        // Second scan: walk the open positions in order, assigning to each
        // the next value that nobody holds.
        let ghost zlen = state.assignments@.len();
        let mut next_unseen: usize = 1;
        let mut k: usize = 0;
        while k < state.assignments.len()
            invariant
                n <= 15,
                n_sq == n * n,
                n_sq <= 225,
                state.n == n,
                input.len() == n_sq,
                state.board@.len() == n_sq,
                valid_input(input, n),
                seen@.len() == n_sq + 1,
                forall|v: int|
                    1 <= v <= n_sq ==> (#[trigger] seen@[v] <==> input.contains(v as u8)),
                state.assignments@.len() == zlen,
                missing_values(input, n_sq as int).len() == zlen,
                forall|kk: int|
                    0 <= kk < zlen ==> #[trigger] state.assignments@[kk] < n_sq,
                forall|kk: int|
                    0 <= kk < zlen ==> input[#[trigger] state.assignments@[kk] as int] == 0,
                forall|k1: int, k2: int|
                    0 <= k1 < k2 < zlen ==> state.assignments@[k1] < state.assignments@[k2],
                forall|i: int| 0 <= i < n_sq && input[i] == 0 ==> state.is_mutable_pos(i),
                k <= zlen,
                1 <= next_unseen <= n_sq + 1,
                missing_values(input, next_unseen - 1).len() == k,
                forall|j: int|
                    0 <= j < k ==> state.board@[#[trigger] state.assignments@[j] as int]
                        == missing_values(input, next_unseen - 1)[j],
                forall|i: int| 0 <= i < n_sq && input[i] != 0 ==> state.board@[i] == input[i],
            decreases zlen - k,
        {
            proof {
                if next_unseen - 1 == n_sq {
                    assert(missing_values(input, next_unseen - 1).len() == zlen);
                }
            }
            let ghost mseq0 = missing_values(input, next_unseen - 1);
            while seen[next_unseen]
                invariant
                    missing_values(input, next_unseen - 1) == mseq0,
                    n_sq <= 225,
                    seen@.len() == n_sq + 1,
                    forall|v: int|
                        1 <= v <= n_sq ==> (#[trigger] seen@[v] <==> input.contains(v as u8)),
                    1 <= next_unseen <= n_sq,
                    missing_values(input, next_unseen - 1).len() == k,
                    k < zlen,
                    missing_values(input, n_sq as int).len() == zlen,
                decreases n_sq - next_unseen,
            {
                proof {
                    assert(input.contains(next_unseen as u8));
                    assert(missing_values(input, next_unseen as int) == missing_values(
                        input,
                        next_unseen - 1,
                    ));
                    if next_unseen == n_sq {
                        assert(missing_values(input, n_sq as int).len() == k);
                    }
                }
                next_unseen += 1;
            }
            proof {
                assert(!input.contains(next_unseen as u8));
                assert(missing_values(input, next_unseen as int) == missing_values(
                    input,
                    next_unseen - 1,
                ).push(next_unseen as u8));
            }
            let pos = state.assignments[k];
            let ghost pre_board = state.board@;
            state.board.set(pos, next_unseen as u8);
            proof {
                lemma_fill_step(
                    input,
                    state.assignments@,
                    pre_board,
                    state.board@,
                    k as int,
                    next_unseen as int,
                );
            }
            next_unseen += 1;
            k += 1;
        }
        proof {
            lemma_construction_complete(state, input, n, next_unseen - 1);
        }
        Ok(state)
    }
}

} // verus!
