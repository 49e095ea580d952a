//! The limit operator: a stateful pass-through that bounds the total row
//! count of a batch stream.  Batches up to the remaining budget pass through
//! unchanged; the batch that crosses the bound is sliced to the first
//! remaining rows; afterwards the upstream is never polled again.

use vstd::prelude::*;

verus! {

/// Sum of a sequence of per-batch row counts.
pub open spec fn sum_rows(s: Seq<u64>) -> int
    decreases s.len(),
{
    if s.len() == 0 {
        0
    } else {
        sum_rows(s.drop_last()) + s.last()
    }
}

pub open spec fn min_int(a: int, b: int) -> int {
    if a <= b {
        a
    } else {
        b
    }
}

/// The limit plan node: bounds its one child's stream to `limit` rows per
/// partition.  The child node itself lives with the host runtime.
pub struct LimitExec {
    pub limit: u64,
}

impl LimitExec {
    pub fn new(limit: u64) -> (s: Self)
        ensures
            s.limit == limit,
    {
        LimitExec { limit }
    }

    /// Rebuilding the node takes exactly one child; any other count is the
    /// structural error reported at plan-rewrite time.
    pub fn with_new_children_ok(&self, n_children: usize) -> (r: bool)
        ensures
            r <==> n_children == 1,
    {
        n_children == 1
    }

    /// The per-partition state a fresh execution starts from.
    pub fn start_partition(&self) -> (s: LimitState)
        ensures
            s.wf(),
            s.limit == self.limit,
            s.cur == 0,
    {
        LimitState::new(self.limit)
    }
}

/// Per-partition limit state: `cur` rows emitted so far out of a budget of
/// `limit`.
pub struct LimitState {
    pub limit: u64,
    pub cur: u64,
}

impl LimitState {
    pub open spec fn wf(&self) -> bool {
        self.cur <= self.limit
    }

    pub open spec fn spec_remaining(&self) -> int {
        self.limit - self.cur
    }

    pub fn new(limit: u64) -> (s: Self)
        ensures
            s.wf(),
            s.limit == limit,
            s.cur == 0,
    {
        LimitState { limit, cur: 0 }
    }

    /// How many more rows may be emitted.
    pub fn remaining(&self) -> (r: u64)
        requires
            self.wf(),
        ensures
            r == self.spec_remaining(),
    {
        self.limit - self.cur
    }

    /// Whether the upstream may be polled at all: false exactly when the
    /// budget is spent, and then the upstream must not be touched again.
    pub fn should_poll(&self) -> (r: bool)
        requires
            self.wf(),
        ensures
            r <==> self.spec_remaining() > 0,
    {
        self.cur < self.limit
    }

    /// Decides the fate of one upstream batch of `rows` rows: the number of
    /// leading rows to emit, which is the whole batch whenever it fits the
    /// remaining budget.
    pub fn on_batch(&mut self, rows: u64) -> (take: u64)
        requires
            old(self).wf(),
        ensures
            final(self).wf(),
            final(self).limit == old(self).limit,
            take == min_int(rows as int, old(self).spec_remaining()),
            final(self).cur == old(self).cur + take,
    {
        let rest = self.limit - self.cur;
        let take = if rows <= rest {
            rows
        } else {
            rest
        };
        self.cur = self.cur + take;
        take
    }
}

/// Runs the limit state machine over a whole upstream of batch row counts
/// and returns the emitted row counts together with the number of times the
/// upstream was polled.  Total output is `min(limit, total input)`; every
/// emitted batch but the last passes through whole; polling stops as soon as
/// the budget is spent.
#[verifier::loop_isolation(false)]
pub fn apply_limit(limit: u64, batches: &Vec<u64>) -> (r: (Vec<u64>, usize))
    ensures
        r.0@.len() == r.1 <= batches@.len(),
        sum_rows(r.0@) == min_int(limit as int, sum_rows(batches@)),
        forall|i: int| 0 <= i < r.1 - 1 ==> r.0@[i] == batches@[i],
        forall|i: int|
            0 <= i < r.1 ==> r.0@[i] == min_int(
                batches@[i] as int,
                limit - sum_rows(batches@.subrange(0, i)),
            ),
        r.1 < batches@.len() ==> sum_rows(r.0@) == limit,
        forall|i: int| 0 <= i < r.1 ==> sum_rows(batches@.subrange(0, i)) < limit,
{
    let mut state = LimitState::new(limit);
    let mut out: Vec<u64> = Vec::new();
    let mut polls: usize = 0;
    while polls < batches.len() && state.should_poll()
        invariant
            state.wf(),
            state.limit == limit,
            out@.len() == polls <= batches@.len(),
            state.cur == sum_rows(out@),
            sum_rows(out@) == min_int(limit as int, sum_rows(batches@.subrange(0, polls as int))),
            forall|i: int| 0 <= i < polls - 1 ==> out@[i] == batches@[i],
            forall|i: int|
                0 <= i < polls ==> out@[i] == min_int(
                    batches@[i] as int,
                    limit - sum_rows(batches@.subrange(0, i)),
                ),
            state.cur < limit ==> forall|i: int| 0 <= i < polls ==> out@[i] == batches@[i],
            forall|i: int| 0 <= i < polls ==> sum_rows(batches@.subrange(0, i)) < limit,
        decreases batches@.len() - polls,
    {
        let ghost prefix = batches@.subrange(0, polls as int);
        let ghost prev = out@;
        let rows = batches[polls];
        let take = state.on_batch(rows);
        out.push(take);
        polls = polls + 1;
        proof {
            assert(batches@.subrange(0, polls as int).drop_last() =~= prefix);
            assert(out@.drop_last() =~= prev);
        }
    }
    proof {
        if polls == batches@.len() {
            assert(batches@.subrange(0, polls as int) =~= batches@);
        } else {
            lemma_sum_rows_prefix(batches@, polls as int);
        }
    }
    (out, polls)
}

/// Row totals only grow as batches are appended.
proof fn lemma_sum_rows_prefix(s: Seq<u64>, i: int)
    requires
        0 <= i <= s.len(),
    ensures
        sum_rows(s.subrange(0, i)) <= sum_rows(s),
    decreases s.len(),
{
    if i == s.len() {
        assert(s.subrange(0, i) =~= s);
    } else {
        let t = s.drop_last();
        assert(s.subrange(0, i) =~= t.subrange(0, i));
        lemma_sum_rows_prefix(t, i);
    }
}

} // verus!
