//! A sparse table: constant-time range-minimum queries over a fixed
//! array, after quadratic-logarithmic preprocessing.
use vstd::prelude::*;

verus! {

/// Two to the `k`-th power.
pub open spec fn pow2(k: nat) -> nat
    decreases k,
{
    if k == 0 {
        1
    } else {
        2 * pow2((k - 1) as nat)
    }
}

/// The floored base-two logarithm, zero below two.
pub open spec fn flog2(i: nat) -> nat
    decreases i,
{
    if i <= 1 {
        0
    } else {
        1 + flog2(i / 2)
    }
}

/// The least element of a sequence (zero when it is empty).
pub open spec fn seq_min(s: Seq<i64>) -> int
    decreases s.len(),
{
    if s.len() == 0 {
        0
    } else if s.len() == 1 {
        s[0] as int
    } else {
        let m = seq_min(s.drop_last());
        if (s.last() as int) < m {
            s.last() as int
        } else {
            m
        }
    }
}

pub proof fn lemma_seq_min_bounds(s: Seq<i64>)
    requires
        s.len() >= 1,
    ensures
        forall|i: int| 0 <= i < s.len() ==> seq_min(s) <= (#[trigger] s[i]) as int,
        exists|i: int| 0 <= i < s.len() && seq_min(s) == s[i] as int,
    decreases s.len(),
{
    if s.len() == 1 {
        assert(seq_min(s) == s[0] as int);
    } else {
        lemma_seq_min_bounds(s.drop_last());
        assert forall|i: int| 0 <= i < s.len() implies seq_min(s) <= (#[trigger] s[i]) as int by {
            if i < s.len() - 1 {
                assert(s.drop_last()[i] == s[i]);
            }
        }
        if (s.last() as int) < seq_min(s.drop_last()) {
            assert(seq_min(s) == s[s.len() - 1] as int);
        } else {
            let i = choose|i: int|
                0 <= i < s.drop_last().len() && seq_min(s.drop_last()) == s.drop_last()[i] as int;
            assert(seq_min(s) == s[i] as int);
        }
    }
}

pub proof fn lemma_seq_min_concat(a: Seq<i64>, b: Seq<i64>)
    requires
        a.len() >= 1,
        b.len() >= 1,
    ensures
        seq_min(a + b) == if seq_min(a) <= seq_min(b) {
            seq_min(a)
        } else {
            seq_min(b)
        },
    decreases b.len(),
{
    if b.len() == 1 {
        assert((a + b).drop_last() =~= a);
        assert((a + b).last() == b[0]);
        assert(seq_min(b) == b[0] as int);
    } else {
        assert((a + b).drop_last() =~= a + b.drop_last());
        assert((a + b).last() == b.last());
        lemma_seq_min_concat(a, b.drop_last());
    }
}

pub proof fn lemma_pow2_pos(k: nat)
    ensures
        pow2(k) >= 1,
    decreases k,
{
    if k > 0 {
        lemma_pow2_pos((k - 1) as nat);
    }
}

pub proof fn lemma_flog2_le(m: nat)
    ensures
        flog2(m) <= m,
    decreases m,
{
    if m > 1 {
        lemma_flog2_le(m / 2);
    }
}

pub proof fn lemma_flog2_mono(m: nat, n: nat)
    requires
        m <= n,
    ensures
        flog2(m) <= flog2(n),
    decreases n,
{
    if m > 1 {
        lemma_flog2_mono(m / 2, n / 2);
    }
}

/// `2^flog2(n)` brackets `n` from below, and doubling it overshoots.
pub proof fn lemma_pow2_flog2(n: nat)
    requires
        n >= 1,
    ensures
        pow2(flog2(n)) <= n,
        n < 2 * pow2(flog2(n)),
    decreases n,
{
    if n > 1 {
        lemma_pow2_flog2(n / 2);
    }
}

/// Range-minimum queries over `values()`: `table[k][j]` holds the least
/// element of the window of width `2^k` starting at `j`, and `log2[i]`
/// holds the floored logarithm of `i`.
pub struct SparseTable {
    pub table: Vec<Vec<i64>>,
    pub log2: Vec<usize>,
}

impl SparseTable {
    /// The array the queries answer over.
    pub open spec fn values(&self) -> Seq<i64> {
        if self.table@.len() > 0 {
            self.table@[0]@
        } else {
            Seq::empty()
        }
    }

    pub open spec fn wf(&self) -> bool {
        let n = self.values().len();
        &&& self.log2@.len() == n + 1
        &&& forall|i: int| 0 <= i <= n ==> (#[trigger] self.log2@[i]) == flog2(i as nat)
        &&& self.table@.len() == flog2(n) + 1
        &&& forall|l: int| 0 <= l < self.table@.len() ==> (#[trigger] self.table@[l])@.len() == n
        &&& forall|l: int, j: int|
            0 <= l < self.table@.len() && 0 <= j && j + pow2(l as nat) <= n ==> (
            #[trigger] self.table@[l]@[j]) as int == seq_min(
                self.values().subrange(j, j + pow2(l as nat)),
            )
    }

    /// Builds the table of window minima, one level per power of two.
    pub fn new(input: Vec<i64>) -> (r: SparseTable)
        requires
            input@.len() < usize::MAX,
        ensures
            r.wf(),
            r.values() == input@,
    {
        let n = input.len();
        let mut log2: Vec<usize> = vec![0; n + 1];
        let mut i: usize = 2;
        while i <= n
            invariant
                n == input@.len() < usize::MAX,
                2 <= i,
                i <= n + 1 || i == 2,
                log2@.len() == n + 1,
                forall|x: int|
                    0 <= x < i && x <= n ==> (#[trigger] log2@[x]) == flog2(x as nat),
            decreases n + 1 - i,
        {
            proof {
                lemma_flog2_le((i / 2) as nat);
            }
            let v = log2[i / 2] + 1;
            let slot = &mut log2[i];
            *slot = v;
            i = i + 1;
        }
        proof {
            assert(forall|x: int| 0 <= x <= n ==> (#[trigger] log2@[x]) == flog2(x as nat));
        }
        let levels = log2[n];
        let mut table: Vec<Vec<i64>> = Vec::new();
        table.push(input);
        let mut lvl: usize = 1;
        let mut pw: usize = 1;
        proof {
            if n >= 1 {
                lemma_pow2_flog2(n as nat);
            }
            lemma_flog2_le(n as nat);
        }
        while lvl <= levels
            invariant
                table@.len() == lvl,
                1 <= lvl,
                lvl <= levels + 1,
                table@[0]@ == input@,
                table@[0]@.len() == n,
                levels == flog2(n as nat) <= n == input@.len() < usize::MAX,
                levels >= 1 ==> n >= 1,
                pw == pow2((lvl - 1) as nat),
                n >= 1 ==> pow2(flog2(n as nat)) <= n,
                forall|l: int| 0 <= l < lvl ==> (#[trigger] table@[l])@.len() == n,
                forall|l: int, j: int|
                    0 <= l < lvl && 0 <= j && j + pow2(l as nat) <= n ==> (
                    #[trigger] table@[l]@[j]) as int == seq_min(
                        table@[0]@.subrange(j, j + pow2(l as nat)),
                    ),
            decreases levels + 1 - lvl,
        {
            proof {
                assert(pow2(lvl as nat) == 2 * pw);
                assert(pow2(lvl as nat) <= pow2(flog2(n as nat))) by {
                    lemma_pow2_mono(lvl as nat, flog2(n as nat));
                }
            }
            // copy the previous level, then overwrite each window minimum
            let mut cur: Vec<i64> = Vec::new();
            let mut j: usize = 0;
            while j < n
                invariant
                    j <= n,
                    table@.len() == lvl >= 1,
                    table@[lvl - 1]@.len() == n,
                    cur@ == table@[lvl - 1]@.subrange(0, j as int),
                decreases n - j,
            {
                cur.push(table[lvl - 1][j]);
                j = j + 1;
                proof {
                    assert(cur@ =~= table@[lvl - 1]@.subrange(0, j as int));
                }
            }
            proof {
                assert(cur@ =~= table@[lvl - 1]@);
            }
            proof {
                assert(2 * pw <= n);
            }
            let mut j: usize = 0;
            while j < n - pw
                invariant
                    table@.len() == lvl >= 1,
                    n >= 1,
                    pw == pow2((lvl - 1) as nat),
                    2 * pw <= n,
                    j <= n - pw,
                    cur@.len() == n,
                    table@[0]@.len() == n,
                    table@[lvl - 1]@.len() == n,
                    forall|l: int, x: int|
                        0 <= l < lvl && 0 <= x && x + pow2(l as nat) <= n ==> (
                        #[trigger] table@[l]@[x]) as int == seq_min(
                            table@[0]@.subrange(x, x + pow2(l as nat)),
                        ),
                    forall|x: int|
                        0 <= x < j && x + 2 * pw <= n ==> (#[trigger] cur@[x]) as int == seq_min(
                            table@[0]@.subrange(x, x + 2 * pw),
                        ),
                decreases n - j,
            {
                let a = table[lvl - 1][j];
                let b = table[lvl - 1][j + pw];
                let m = if a < b {
                    a
                } else {
                    b
                };
                proof {
                    if j + 2 * pw <= n {
                        lemma_pow2_pos((lvl - 1) as nat);
                        let base = table@[0]@;
                        let left = base.subrange(j as int, j + pw);
                        let right = base.subrange(j + pw, j + 2 * pw);
                        assert(base.subrange(j as int, j + 2 * pw) =~= left + right);
                        lemma_seq_min_concat(left, right);
                        assert(a as int == seq_min(left));
                        assert(b as int == seq_min(right));
                    }
                }
                let slot = &mut cur[j];
                *slot = m;
                j = j + 1;
            }
            proof {
                lemma_pow2_pos((lvl - 1) as nat);
                assert forall|x: int| 0 <= x && x + pow2(lvl as nat) <= n implies (
                #[trigger] cur@[x]) as int == seq_min(
                    table@[0]@.subrange(x, x + pow2(lvl as nat)),
                ) by {
                    assert(x < n - pw);
                    assert(pow2(lvl as nat) == 2 * pw);
                }
            }
            let ghost tprev = table@;
            table.push(cur);
            pw = pw * 2;
            lvl = lvl + 1;
            proof {
                assert(table@[0]@ =~= tprev[0]@);
                assert forall|l: int, j2: int|
                    0 <= l < lvl && 0 <= j2 && j2 + pow2(l as nat) <= n implies (
                #[trigger] table@[l]@[j2]) as int == seq_min(
                    table@[0]@.subrange(j2, j2 + pow2(l as nat)),
                ) by {
                    if l < lvl - 1 {
                        assert(table@[l] == tprev[l]);
                    }
                }
            }
        }
        let r = SparseTable { table, log2 };
        proof {
            if n == 0 {
                assert(r.values().len() == 0);
                assert(flog2(0) == 0);
            }
        }
        r
    }

    /// The least element of `values()[l ..= r]`: the minima of the two
    /// largest power-of-two windows inside the range, starting at its two
    /// ends, combined.
    #[verifier::rlimit(60)]
    pub fn query(&self, l: usize, r: usize) -> (m: i64)
        requires
            self.wf(),
            l <= r < self.values().len(),
        ensures
            m as int == seq_min(self.values().subrange(l as int, r + 1)),
    {
        let n = self.table[0].len();
        let width = r - l + 1;
        let k = self.log2[width];
        proof {
            assert(k == flog2(width as nat));
            lemma_flog2_mono(width as nat, n as nat);
            lemma_pow2_flog2(width as nat);
        }
        // 2^k, by doubling
        let mut pw: usize = 1;
        let mut c: usize = 0;
        while c < k
            invariant
                c <= k,
                k == flog2(width as nat),
                width <= n == self.values().len(),
                pw == pow2(c as nat),
                pow2(flog2(width as nat)) <= width,
            decreases k - c,
        {
            proof {
                lemma_pow2_mono((c + 1) as nat, k as nat);
            }
            pw = pw * 2;
            c = c + 1;
        }
        let x = self.table[k][l];
        let y = self.table[k][r + 1 - pw];
        let m = if x < y {
            x
        } else {
            y
        };
        proof {
            let base = self.values();
            let lo = l as int;
            let hi = r + 1;
            assert(pow2(k as nat) <= width);
            assert(width < 2 * pow2(k as nat));
            let left = base.subrange(lo, lo + pw);
            let right = base.subrange(hi - pw, hi);
            let whole = base.subrange(lo, hi);
            assert(x as int == seq_min(left));
            assert(y as int == seq_min(right));
            lemma_seq_min_bounds(whole);
            lemma_seq_min_bounds(left);
            lemma_seq_min_bounds(right);
            // the range minimum is attained inside one of the two windows
            let t = choose|t: int| 0 <= t < whole.len() && seq_min(whole) == whole[t] as int;
            if t < pw {
                assert(left[t] == whole[t]);
                assert(x as int <= whole[t] as int);
            } else {
                assert(right[t - (hi - pw - lo)] == whole[t]);
                assert(y as int <= whole[t] as int);
            }
            // and each window minimum is an element of the range
            let tx = choose|i: int| 0 <= i < left.len() && seq_min(left) == left[i] as int;
            assert(whole[tx] == left[tx]);
            let ty = choose|i: int| 0 <= i < right.len() && seq_min(right) == right[i] as int;
            assert(whole[hi - pw - lo + ty] == right[ty]);
        }
        m
    }
}

pub proof fn lemma_pow2_mono(a: nat, b: nat)
    requires
        a <= b,
    ensures
        pow2(a) <= pow2(b),
    decreases b,
{
    if a > 0 {
        lemma_pow2_mono((a - 1) as nat, (b - 1) as nat);
    } else if b > 0 {
        lemma_pow2_mono(0, (b - 1) as nat);
        lemma_pow2_pos((b - 1) as nat);
    }
}

} // verus!
