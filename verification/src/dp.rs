//! Pieces of the dynamic program that do not depend on the cost model:
//! picking the cheapest final state and following the back-pointers.

use vstd::prelude::*;

verus! {

/// `idx` is the first position of a smallest entry of `b`.
pub open spec fn is_first_min(b: Seq<i64>, idx: int) -> bool {
    &&& 0 <= idx < b.len()
    &&& forall|j: int| 0 <= j < b.len() ==> b[idx] <= #[trigger] b[j]
    &&& forall|j: int| 0 <= j < idx ==> b[idx] < #[trigger] b[j]
}

/// Index of the smallest entry of `b`; the first one wins on ties.
pub fn argmin(b: &[i64]) -> (idx: usize)
    requires
        b@.len() > 0,
    ensures
        is_first_min(b@, idx as int),
{
    let mut best = b[0];
    let mut idx: usize = 0;
    let mut i: usize = 1;
    while i < b.len()
        invariant
            1 <= i <= b@.len(),
            0 <= idx < i,
            best == b@[idx as int],
            forall|j: int| 0 <= j < i ==> best <= #[trigger] b@[j],
            forall|j: int| 0 <= j < idx ==> best < #[trigger] b@[j],
        decreases b@.len() - i,
    {
        if b[i] < best {
            best = b[i];
            idx = i;
        }
        i += 1;
    }
    idx
}

/// Back-pointer columns are well formed: each has `k` entries, all below `k`.
pub open spec fn pointers_ok(cols: Seq<Vec<u32>>, k: int) -> bool {
    forall|c: int|
        0 <= c < cols.len() ==> (#[trigger] cols[c])@.len() == k && forall|i: int|
            0 <= i < k ==> (#[trigger] cols[c]@[i]) < k
}

/// The states, column by column, of the path that ends in state `i` of
/// column `col`: `cols[c][s]` is the state in column `c` from which state
/// `s` of column `c + 1` was reached.
pub open spec fn trace(cols: Seq<Vec<u32>>, col: int, i: int) -> Seq<int>
    decreases col,
{
    if col <= 0 {
        seq![i]
    } else {
        trace(cols, col - 1, cols[col - 1]@[i] as int).push(i)
    }
}

/// Shape of a traced path: one state per column, each below `k`, ending in `i`,
/// and each state is the back-pointer of its successor.
pub proof fn lemma_trace_shape(cols: Seq<Vec<u32>>, k: int, col: int, i: int)
    requires
        pointers_ok(cols, k),
        0 <= col <= cols.len(),
        0 <= i < k,
    ensures
        trace(cols, col, i).len() == col + 1,
        trace(cols, col, i)[col] == i,
        forall|c: int| 0 <= c <= col ==> 0 <= #[trigger] trace(cols, col, i)[c] < k,
        forall|c: int|
            1 <= c <= col ==> #[trigger] trace(cols, col, i)[c - 1] == cols[c - 1]@[trace(
                cols,
                col,
                i,
            )[c]] as int,
    decreases col,
{
    if col > 0 {
        let p = cols[col - 1]@[i] as int;
        assert(cols[col - 1]@[i] < k);
        lemma_trace_shape(cols, k, col - 1, p);
        let t = trace(cols, col, i);
        let s = trace(cols, col - 1, p);
        assert(t == s.push(i));
        assert forall|c: int| 1 <= c <= col implies #[trigger] t[c - 1] == cols[c - 1]@[t[c]] as int by {
            if c < col {
                assert(t[c] == s[c]);
                assert(t[c - 1] == s[c - 1]);
            }
        }
    }
}

/// Appending a column leaves the traces of the earlier columns unchanged.
pub proof fn lemma_trace_push(cols: Seq<Vec<u32>>, extra: Vec<u32>, col: int, i: int)
    requires
        0 <= col <= cols.len(),
    ensures
        trace(cols.push(extra), col, i) == trace(cols, col, i),
    decreases col,
{
    if col > 0 {
        assert(cols.push(extra)[col - 1] == cols[col - 1]);
        lemma_trace_push(cols, extra, col - 1, cols[col - 1]@[i] as int);
    }
}

/// Follows the back-pointers from state `last` of the final column to the
/// first column and returns the state of every column.
pub fn backtrack(cols: &Vec<Vec<u32>>, k: usize, last: usize) -> (path: Vec<usize>)
    requires
        pointers_ok(cols@, k as int),
        last < k,
        cols@.len() < usize::MAX,
    ensures
        path@.len() == cols@.len() + 1,
        forall|c: int|
            0 <= c < path@.len() ==> path@[c] as int == #[trigger] trace(
                cols@,
                cols@.len() as int,
                last as int,
            )[c],
{
    let n = cols.len() + 1;
    let ghost t = trace(cols@, cols@.len() as int, last as int);
    proof {
        lemma_trace_shape(cols@, k as int, cols@.len() as int, last as int);
    }
    let mut path: Vec<usize> = Vec::new();
    let mut c: usize = 0;
    while c < n
        invariant
            n == cols@.len() + 1,
            path@.len() == c,
            c <= n,
            forall|j: int| 0 <= j < c ==> path@[j] == 0,
        decreases n - c,
    {
        path.push(0);
        c += 1;
    }
    let mut l = last;
    path.set(n - 1, l);
    let mut col = n - 1;
    while col > 0
        invariant
            n == cols@.len() + 1,
            path@.len() == n,
            0 <= col < n,
            l < k,
            t == trace(cols@, cols@.len() as int, last as int),
            t.len() == n,
            l as int == t[col as int],
            pointers_ok(cols@, k as int),
            forall|c: int| 0 <= c <= n - 1 ==> 0 <= #[trigger] t[c] < k,
            forall|c: int| 1 <= c <= n - 1 ==> #[trigger] t[c - 1] == cols@[c - 1]@[t[c]] as int,
            forall|j: int| col <= j < n ==> path@[j] as int == #[trigger] t[j],
        decreases col,
    {
        proof {
            assert(cols@[col - 1]@.len() == k);
        }
        l = cols[col - 1][l] as usize;
        path.set(col - 1, l);
        col -= 1;
    }
    path
}

} // verus!
