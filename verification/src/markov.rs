use vstd::prelude::*;

verus! {

/// Count recorded for target t in one association row (0 when absent).
pub open spec fn row_lookup(row: Seq<(usize, u64)>, t: int) -> int
    decreases row.len(),
{
    if row.len() == 0 {
        0
    } else if row[0].0 == t {
        row[0].1 as int
    } else {
        row_lookup(row.drop_first(), t)
    }
}

/// Sum of the counts recorded in one association row.
pub open spec fn row_total(row: Seq<(usize, u64)>) -> int
    decreases row.len(),
{
    if row.len() == 0 {
        0
    } else {
        row[0].1 + row_total(row.drop_first())
    }
}

/// Number of consecutive pairs (w[i-1] == s, w[i] == t) with i among
/// 1 .. upto-1 of the winner sequence.
pub open spec fn pair_count(ws: Seq<usize>, s: int, t: int, upto: int) -> int
    decreases upto,
{
    if upto <= 1 {
        0
    } else {
        pair_count(ws, s, t, upto - 1) + if ws[upto - 2] == s && ws[upto - 1] == t {
            1int
        } else {
            0int
        }
    }
}

/// Number of indices i among 1 .. upto-1 with w[i-1] == s: how often s
/// appears as the predecessor of a transition.
pub open spec fn pred_count(ws: Seq<usize>, s: int, upto: int) -> int
    decreases upto,
{
    if upto <= 1 {
        0
    } else {
        pred_count(ws, s, upto - 1) + if ws[upto - 2] == s {
            1int
        } else {
            0int
        }
    }
}

/// Sum of the counts of the first `upto` entries of an association row.
pub open spec fn row_sum_upto(row: Seq<(usize, u64)>, upto: int) -> int
    decreases upto,
{
    if upto <= 0 {
        0
    } else {
        row_sum_upto(row, upto - 1) + row[upto - 1].1
    }
}

proof fn lemma_row_sum_shift(row: Seq<(usize, u64)>, k: int)
    requires
        1 <= k <= row.len(),
    ensures
        row_sum_upto(row, k) == row[0].1 + row_sum_upto(row.drop_first(), k - 1),
    decreases k,
{
    if k == 1 {
        assert(row_sum_upto(row, 1) == row_sum_upto(row, 0) + row[0].1);
        assert(row_sum_upto(row.drop_first(), 0) == 0);
    } else {
        lemma_row_sum_shift(row, k - 1);
        assert(row.drop_first()[k - 2] == row[k - 1]);
        assert(row_sum_upto(row.drop_first(), k - 1) == row_sum_upto(row.drop_first(), k - 2)
            + row.drop_first()[k - 2].1);
        assert(row_sum_upto(row, k) == row_sum_upto(row, k - 1) + row[k - 1].1);
    }
}

/// The prefix sum over the whole row is its total.
pub proof fn lemma_row_sum_total(row: Seq<(usize, u64)>)
    ensures
        row_sum_upto(row, row.len() as int) == row_total(row),
    decreases row.len(),
{
    if row.len() > 0 {
        lemma_row_sum_shift(row, row.len() as int);
        lemma_row_sum_total(row.drop_first());
    }
}

/// Prefix sums of counts are monotone.
pub proof fn lemma_row_sum_mono(row: Seq<(usize, u64)>, a: int, b: int)
    requires
        0 <= a <= b <= row.len(),
    ensures
        row_sum_upto(row, a) <= row_sum_upto(row, b),
    decreases b,
{
    if a < b {
        lemma_row_sum_mono(row, a, b - 1);
    }
}

/// First-order Markov transition counts over a winner sequence: for
/// every source neuron, the observed targets with their positive
/// counts, created on first occurrence starting at 1.  Targets absent
/// from a source's row were never observed after that source.
pub struct TransitionTable {
    pub n_states: usize,
    pub rows: Vec<Vec<(usize, u64)>>,
}

impl TransitionTable {
    /// Well-formedness: one association row per state, unique targets
    /// per row, every recorded target in range and every recorded
    /// count positive.
    pub open spec fn wf(self) -> bool {
        &&& self.rows@.len() == self.n_states
        &&& forall|s: int, a: int, b: int|
            0 <= s < self.rows@.len() && 0 <= a < b < (#[trigger] self.rows@[s])@.len() ==> (
            #[trigger] self.rows@[s]@[a]).0 != (#[trigger] self.rows@[s]@[b]).0
        &&& forall|s: int, a: int|
            0 <= s < self.rows@.len() && 0 <= a < (#[trigger] self.rows@[s])@.len() ==> (
            #[trigger] self.rows@[s]@[a]).0 < self.n_states && self.rows@[s]@[a].1 >= 1
    }

    /// The transition count from s to t (0 when never observed).
    pub open spec fn count(self, s: int, t: int) -> int {
        row_lookup(self.rows@[s]@, t)
    }

    /// The sum of all transition counts out of s.
    pub open spec fn total_from(self, s: int) -> int {
        row_total(self.rows@[s]@)
    }

    /// Reads the transition count from s to t.
    #[verifier::loop_isolation(false)]
    pub fn get_count(&self, s: usize, t: usize) -> (r: u64)
        requires
            self.wf(),
            s < self.n_states,
        ensures
            r as int == self.count(s as int, t as int),
    {
        let row = &self.rows[s];
        let mut j: usize = 0;
        while j < row.len()
            invariant
                j <= row@.len(),
                row@ == self.rows@[s as int]@,
                forall|a: int| 0 <= a < j ==> (#[trigger] row@[a]).0 != t,
            decreases row@.len() - j,
        {
            if row[j].0 == t {
                proof {
                    assert forall|a: int, b: int| 0 <= a < b < row@.len() implies (
                    #[trigger] row@[a]).0 != (#[trigger] row@[b]).0 by {
                        assert(self.rows@[s as int]@[a] == row@[a]);
                        assert(self.rows@[s as int]@[b] == row@[b]);
                    }
                    lemma_lookup_at(row@, j as int);
                }
                return row[j].1;
            }
            j = j + 1;
        }
        proof {
            lemma_lookup_absent(row@, t as int);
        }
        0
    }
}

proof fn lemma_lookup_at(row: Seq<(usize, u64)>, j: int)
    requires
        0 <= j < row.len(),
        forall|a: int, b: int|
            0 <= a < b < row.len() ==> (#[trigger] row[a]).0 != (#[trigger] row[b]).0,
    ensures
        row_lookup(row, row[j].0 as int) == row[j].1,
    decreases row.len(),
{
    if j > 0 {
        assert(row[0].0 != row[j].0);
        assert(row.drop_first()[j - 1] == row[j]);
        lemma_lookup_at(row.drop_first(), j - 1);
    }
}

proof fn lemma_lookup_absent(row: Seq<(usize, u64)>, t: int)
    requires
        forall|a: int| 0 <= a < row.len() ==> (#[trigger] row[a]).0 != t,
    ensures
        row_lookup(row, t) == 0,
    decreases row.len(),
{
    if row.len() > 0 {
        lemma_lookup_absent(row.drop_first(), t);
    }
}

proof fn lemma_update_lookup(row: Seq<(usize, u64)>, j: int, v: (usize, u64))
    requires
        0 <= j < row.len(),
        v.0 == row[j].0,
        forall|a: int, b: int|
            0 <= a < b < row.len() ==> (#[trigger] row[a]).0 != (#[trigger] row[b]).0,
    ensures
        row_lookup(row.update(j, v), v.0 as int) == v.1,
        forall|x: int| x != v.0 ==> row_lookup(row.update(j, v), x) == row_lookup(row, x),
        row_total(row.update(j, v)) == row_total(row) - row[j].1 + v.1,
    decreases row.len(),
{
    let upd = row.update(j, v);
    if j == 0 {
        assert(upd[0] == v);
        assert(upd.drop_first() =~= row.drop_first());
        assert forall|x: int| x != v.0 implies row_lookup(upd, x) == row_lookup(row, x) by {
            assert(row_lookup(upd, x) == row_lookup(upd.drop_first(), x));
            assert(row_lookup(row, x) == row_lookup(row.drop_first(), x));
        }
    } else {
        assert(upd[0] == row[0]);
        assert(row[0].0 != v.0);
        assert(upd.drop_first() =~= row.drop_first().update(j - 1, v));
        assert(forall|a: int|
            0 <= a < row.drop_first().len() ==> row.drop_first()[a] == row[a + 1]);
        lemma_update_lookup(row.drop_first(), j - 1, v);
        assert(row.drop_first()[j - 1] == row[j]);
        assert(row_lookup(upd, v.0 as int) == row_lookup(upd.drop_first(), v.0 as int));
        assert forall|x: int| x != v.0 implies row_lookup(upd, x) == row_lookup(row, x) by {
            if row[0].0 == x {
                assert(row_lookup(upd, x) == upd[0].1);
                assert(row_lookup(row, x) == row[0].1);
            } else {
                assert(row_lookup(upd, x) == row_lookup(upd.drop_first(), x));
                assert(row_lookup(row, x) == row_lookup(row.drop_first(), x));
            }
        }
        assert(row_total(upd) == upd[0].1 + row_total(upd.drop_first()));
        assert(row_total(row) == row[0].1 + row_total(row.drop_first()));
    }
}

proof fn lemma_push_lookup(row: Seq<(usize, u64)>, t: usize, c: u64)
    requires
        forall|a: int| 0 <= a < row.len() ==> (#[trigger] row[a]).0 != t,
    ensures
        row_lookup(row.push((t, c)), t as int) == c,
        forall|x: int| x != t ==> row_lookup(row.push((t, c)), x) == row_lookup(row, x),
        row_total(row.push((t, c))) == row_total(row) + c,
    decreases row.len(),
{
    let p = row.push((t, c));
    if row.len() == 0 {
        assert(p[0] == (t, c));
        assert(p.drop_first() =~= Seq::<(usize, u64)>::empty());
        assert forall|x: int| x != t implies row_lookup(p, x) == row_lookup(row, x) by {
            assert(row_lookup(p, x) == row_lookup(p.drop_first(), x));
        }
        assert(row_total(p) == c + row_total(p.drop_first()));
    } else {
        assert(p[0] == row[0]);
        assert(forall|a: int| 0 <= a < row.drop_first().len() ==> row.drop_first()[a] == row[a + 1]);
        assert(p.drop_first() =~= row.drop_first().push((t, c)));
        lemma_push_lookup(row.drop_first(), t, c);
        assert(row[0].0 != t);
        assert(row_lookup(p, t as int) == row_lookup(p.drop_first(), t as int));
        assert forall|x: int| x != t implies row_lookup(p, x) == row_lookup(row, x) by {
            if row[0].0 == x {
                assert(row_lookup(p, x) == p[0].1);
                assert(row_lookup(row, x) == row[0].1);
            } else {
                assert(row_lookup(p, x) == row_lookup(p.drop_first(), x));
                assert(row_lookup(row, x) == row_lookup(row.drop_first(), x));
            }
        }
        assert(row_total(p) == p[0].1 + row_total(p.drop_first()));
        assert(row_total(row) == row[0].1 + row_total(row.drop_first()));
    }
}

/// pred_count can never exceed the number of transitions considered.
pub proof fn lemma_pred_count_le(ws: Seq<usize>, s: int, upto: int)
    requires
        1 <= upto,
    ensures
        0 <= pred_count(ws, s, upto) <= upto - 1,
    decreases upto,
{
    if upto > 1 {
        lemma_pred_count_le(ws, s, upto - 1);
    }
}

/// pair_count can never exceed the number of transitions considered.
proof fn lemma_pair_count_le(ws: Seq<usize>, s: int, t: int, upto: int)
    requires
        1 <= upto,
    ensures
        0 <= pair_count(ws, s, t, upto) <= upto - 1,
    decreases upto,
{
    if upto > 1 {
        lemma_pair_count_le(ws, s, t, upto - 1);
    }
}

/// Records one observed transition: increments the count for target t
/// in the association row, creating the entry at 1 on first
/// occurrence.
#[verifier::loop_isolation(false)]
fn bump_row(row: &mut Vec<(usize, u64)>, t: usize, Ghost(n): Ghost<usize>)
    requires
        forall|a: int, b: int|
            0 <= a < b < old(row)@.len() ==> (#[trigger] old(row)@[a]).0 != (
            #[trigger] old(row)@[b]).0,
        forall|a: int|
            0 <= a < old(row)@.len() ==> (#[trigger] old(row)@[a]).0 < n && old(row)@[a].1 >= 1,
        t < n,
        row_lookup(old(row)@, t as int) < u64::MAX,
    ensures
        row_lookup(final(row)@, t as int) == row_lookup(old(row)@, t as int) + 1,
        forall|x: int| x != t ==> row_lookup(final(row)@, x) == row_lookup(old(row)@, x),
        row_total(final(row)@) == row_total(old(row)@) + 1,
        forall|a: int, b: int|
            0 <= a < b < final(row)@.len() ==> (#[trigger] final(row)@[a]).0 != (
            #[trigger] final(row)@[b]).0,
        forall|a: int|
            0 <= a < final(row)@.len() ==> (#[trigger] final(row)@[a]).0 < n
                && final(row)@[a].1 >= 1,
{
    let mut j: usize = 0;
    while j < row.len()
        invariant
            j <= row@.len(),
            row@ == old(row)@,
            forall|a: int| 0 <= a < j ==> (#[trigger] row@[a]).0 != t,
        decreases row@.len() - j,
    {
        if row[j].0 == t {
            let c = row[j].1;
            proof {
                lemma_lookup_at(row@, j as int);
                lemma_update_lookup(row@, j as int, (t, (c + 1) as u64));
            }
            row.set(j, (t, c + 1));
            return ;
        }
        j = j + 1;
    }
    proof {
        lemma_lookup_absent(row@, t as int);
        lemma_push_lookup(row@, t, 1);
    }
    row.push((t, 1));
}

/// Builds the first-order Markov transition model of a winner
/// sequence: for every consecutive pair (w[i-1], w[i]) the count of
/// transitions from w[i-1] to w[i] is incremented by 1, entries being
/// created at 1 on first occurrence.  The resulting table records,
/// for all states s and t, exactly the number of those pairs — and so,
/// for every source s, the sum of the counts out of s equals the
/// number of times s appears as a predecessor in the sequence
/// (transition count conservation).
#[verifier::loop_isolation(false)]
pub fn build_transitions(ws: &Vec<usize>, n_states: usize) -> (r: TransitionTable)
    requires
        forall|i: int| 0 <= i < ws@.len() ==> (#[trigger] ws@[i]) < n_states,
    ensures
        r.wf(),
        r.n_states == n_states,
        forall|s: int, t: int|
            0 <= s < n_states && 0 <= t < n_states ==> r.count(s, t) == pair_count(
                ws@,
                s,
                t,
                ws@.len() as int,
            ),
        forall|s: int|
            0 <= s < n_states ==> r.total_from(s) == pred_count(ws@, s, ws@.len() as int),
{
    let mut rows: Vec<Vec<(usize, u64)>> = Vec::new();
    let mut z: usize = 0;
    while z < n_states
        invariant
            z <= n_states,
            rows@.len() == z,
            forall|s: int| 0 <= s < z ==> (#[trigger] rows@[s])@.len() == 0,
        decreases n_states - z,
    {
        rows.push(Vec::new());
        z = z + 1;
    }
    let mut tbl = TransitionTable { n_states, rows };
    if ws.len() == 0 {
        return tbl;
    }
    let mut i: usize = 1;
    while i < ws.len()
        invariant
            1 <= i <= ws@.len(),
            tbl.n_states == n_states,
            tbl.wf(),
            forall|s: int, t: int|
                0 <= s < n_states && 0 <= t < n_states ==> tbl.count(s, t) == pair_count(
                    ws@,
                    s,
                    t,
                    i as int,
                ),
            forall|s: int| 0 <= s < n_states ==> tbl.total_from(s) == pred_count(ws@, s, i as int),
        decreases ws@.len() - i,
    {
        let s = ws[i - 1];
        let t = ws[i];
        let ghost pre = tbl.rows@;
        proof {
            lemma_pair_count_le(ws@, s as int, t as int, i as int);
            assert forall|s2: int, t2: int| 0 <= s2 < n_states && 0 <= t2 < n_states implies
                row_lookup(pre[s2]@, t2) == pair_count(ws@, s2, t2, i as int) by {
                assert(tbl.count(s2, t2) == pair_count(ws@, s2, t2, i as int));
            }
            assert forall|s2: int| 0 <= s2 < n_states implies row_total(pre[s2]@) == pred_count(
                ws@,
                s2,
                i as int,
            ) by {
                assert(tbl.total_from(s2) == pred_count(ws@, s2, i as int));
            }
            assert(row_lookup(pre[s as int]@, t as int) < u64::MAX);
        }
        bump_row(&mut tbl.rows[s], t, Ghost(n_states));
        proof {
            assert forall|s2: int, t2: int| 0 <= s2 < n_states && 0 <= t2 < n_states implies
                tbl.count(s2, t2) == pair_count(ws@, s2, t2, i + 1) by {
                assert(pair_count(ws@, s2, t2, i + 1) == pair_count(ws@, s2, t2, i as int) + if ws@[
                    i - 1] == s2 && ws@[i as int] == t2 {
                    1int
                } else {
                    0int
                });
                if s2 != s {
                    assert(tbl.rows@[s2] == pre[s2]);
                } else {
                    if t2 == t {
                        assert(row_lookup(tbl.rows@[s2]@, t2) == row_lookup(pre[s2]@, t2) + 1);
                    } else {
                        assert(row_lookup(tbl.rows@[s2]@, t2) == row_lookup(pre[s2]@, t2));
                    }
                }
            }
            assert forall|s2: int| 0 <= s2 < n_states implies tbl.total_from(s2) == pred_count(
                ws@,
                s2,
                i + 1,
            ) by {
                assert(pred_count(ws@, s2, i + 1) == pred_count(ws@, s2, i as int) + if ws@[i - 1]
                    == s2 {
                    1int
                } else {
                    0int
                });
                if s2 != s {
                    assert(tbl.rows@[s2] == pre[s2]);
                } else {
                    assert(row_total(tbl.rows@[s2]@) == row_total(pre[s2]@) + 1);
                }
            }
        }
        i = i + 1;
    }
    tbl
}

} // verus!
