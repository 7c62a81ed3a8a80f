//! A static range-minimum sparse table: O(n log n) preprocessing and O(1)
//! range queries over a fixed sequence, using overlapping power-of-two
//! windows (idempotence of the minimum makes the overlap harmless).

use vstd::prelude::*;

verus! {

/// Two to the power `i`.
pub open spec fn pow2(i: nat) -> nat
    decreases i,
{
    if i == 0 {
        1
    } else {
        2 * pow2((i - 1) as nat)
    }
}

/// The minimum value among `s[l..=r]`.
pub open spec fn min_in(s: Seq<u64>, l: int, r: int) -> u64
    recommends
        0 <= l <= r < s.len(),
    decreases r - l,
{
    if l >= r {
        s[l]
    } else if s[l] < min_in(s, l + 1, r) {
        s[l]
    } else {
        min_in(s, l + 1, r)
    }
}

/// The range minimum is a lower bound for every element of the range.
pub proof fn lemma_min_in_le(s: Seq<u64>, l: int, r: int, i: int)
    requires
        0 <= l <= i <= r < s.len(),
    ensures
        min_in(s, l, r) <= s[i],
    decreases r - l,
{
    if l < r {
        if i > l {
            lemma_min_in_le(s, l + 1, r, i);
        }
    }
}

/// The range minimum is attained by some element of the range.
pub proof fn lemma_min_in_witness(s: Seq<u64>, l: int, r: int)
    requires
        0 <= l <= r < s.len(),
    ensures
        exists|i: int| l <= i <= r && s[i] == min_in(s, l, r),
    decreases r - l,
{
    if l >= r {
        assert(s[l] == min_in(s, l, r));
    } else {
        lemma_min_in_witness(s, l + 1, r);
    }
}

/// Two overlapping windows that together cover a range have the range's
/// minimum as the smaller of their minima.
pub proof fn lemma_min_in_cover(s: Seq<u64>, l: int, r: int, a2: int, b1: int)
    requires
        0 <= l <= b1 <= r < s.len(),
        l <= a2 <= r,
        a2 <= b1 + 1,
    ensures
        min_in(s, l, r) == (if min_in(s, l, b1) < min_in(s, a2, r) {
            min_in(s, l, b1)
        } else {
            min_in(s, a2, r)
        }),
{
    let w = if min_in(s, l, b1) < min_in(s, a2, r) {
        min_in(s, l, b1)
    } else {
        min_in(s, a2, r)
    };
    lemma_min_in_witness(s, l, r);
    let i0 = choose|i: int| l <= i <= r && s[i] == min_in(s, l, r);
    if i0 <= b1 {
        lemma_min_in_le(s, l, b1, i0);
    } else {
        lemma_min_in_le(s, a2, r, i0);
    }
    lemma_min_in_witness(s, l, b1);
    let i1 = choose|i: int| l <= i <= b1 && s[i] == min_in(s, l, b1);
    lemma_min_in_le(s, l, r, i1);
    lemma_min_in_witness(s, a2, r);
    let i2 = choose|i: int| a2 <= i <= r && s[i] == min_in(s, a2, r);
    lemma_min_in_le(s, l, r, i2);
}

/// A sparse table for O(1) range-minimum queries: row `i` holds, at column
/// `j`, the minimum of the window of length `2^i` starting at `j` (clipped
/// to the sequence's end).
pub struct SparseTable {
    s: Vec<u64>,
    data: Vec<Vec<u64>>,
}

impl SparseTable {
    /// The sequence the table answers queries about.
    pub closed spec fn seq(self) -> Seq<u64> {
        self.s@
    }

    pub closed spec fn wf(self) -> bool {
        &&& forall|i: int|
            0 <= i < self.data@.len() ==> (#[trigger] self.data@[i]@).len() == self.s@.len()
        &&& forall|i: int, j: int|
            0 <= i < self.data@.len() && 0 <= j < self.s@.len()
                ==> #[trigger] self.data@[i]@[j] == min_in(
                self.s@,
                j,
                if j + pow2(i as nat) <= self.s@.len() {
                    j + pow2(i as nat) - 1
                } else {
                    self.s@.len() - 1
                },
            )
        &&& (self.s@.len() >= 1 ==> self.data@.len() >= 1)
        &&& forall|w: nat|
            1 <= w <= self.s@.len() ==> #[trigger] pow2_floor_level(w) < self.data@.len()
    }

    /// Builds the table: row 0 is the sequence itself, and each further row
    /// combines two half-windows of the row below.
    pub fn new(s: &Vec<u64>) -> (r: Self)
        ensures
            r.wf(),
            r.seq() == s@,
    {
        let n = s.len();
        let mut sc: Vec<u64> = Vec::new();
        let mut ci: usize = 0;
        while ci < n
            invariant
                ci <= s@.len(),
                n == s@.len(),
                sc@.len() == ci,
                forall|j: int| 0 <= j < ci ==> sc@[j] == s@[j],
            decreases n - ci,
        {
            sc.push(s[ci]);
            ci += 1;
        }
        proof {
            assert(sc@ =~= s@);
        }
        if n == 0 {
            let data: Vec<Vec<u64>> = Vec::new();
            return SparseTable { s: sc, data };
        }
        let mut data: Vec<Vec<u64>> = Vec::new();
        data.push(sc.clone());
        proof {
            assert(data@[0]@ =~= s@);
            assert forall|j: int| 0 <= j < n implies #[trigger] data@[0]@[j] == min_in(
                s@,
                j,
                if j + pow2(0) <= s@.len() {
                    j + pow2(0) - 1
                } else {
                    s@.len() - 1
                },
            ) by {
                assert(pow2(0) == 1);
            }
        }
        let mut step: usize = 1;
        let ghost mut level: nat = 0;
        while step <= n / 2
            invariant
                n == s@.len(),
                1 <= n,
                s@ == sc@,
                step == pow2(level),
                1 <= step,
                step <= n,
                data@.len() == level + 1,
                forall|i: int|
                    0 <= i < data@.len() ==> (#[trigger] data@[i]@).len() == s@.len(),
                forall|i: int, j: int|
                    0 <= i < data@.len() && 0 <= j < s@.len() ==> #[trigger] data@[i]@[j]
                        == min_in(
                        s@,
                        j,
                        if j + pow2(i as nat) <= s@.len() {
                            j + pow2(i as nat) - 1
                        } else {
                            s@.len() - 1
                        },
                    ),
            decreases n - step,
        {
            let ghost prev = data@[data@.len() - 1]@;
            let mut row: Vec<u64> = Vec::new();
            let mut j: usize = 0;
            while j < n
                invariant
                    n == s@.len(),
                    1 <= n,
                    step == pow2(level),
                    1 <= step,
                    step <= n / 2,
                    j <= n,
                    row@.len() == j,
                    data@.len() == level + 1,
                    prev == data@[data@.len() - 1]@,
                    prev.len() == n,
                    forall|jj: int|
                        0 <= jj < n ==> #[trigger] prev[jj] == min_in(
                            s@,
                            jj,
                            if jj + pow2(level) <= s@.len() {
                                jj + pow2(level) - 1
                            } else {
                                s@.len() - 1
                            },
                        ),
                    forall|jj: int|
                        0 <= jj < j ==> #[trigger] row@[jj] == min_in(
                            s@,
                            jj,
                            if jj + pow2(level + 1) <= s@.len() {
                                jj + pow2(level + 1) - 1
                            } else {
                                s@.len() - 1
                            },
                        ),
                decreases n - j,
            {
                let v = if j < n - step {
                    let k = j + step;
                    let a = data[data.len() - 1][j];
                    let b = data[data.len() - 1][k];
                    let m = if a < b {
                        a
                    } else {
                        b
                    };
                    proof {
                        let hi1 = if j + pow2(level) <= s@.len() {
                            j + pow2(level) - 1
                        } else {
                            s@.len() - 1
                        };
                        let hi2 = if k + pow2(level) <= s@.len() {
                            k + pow2(level) - 1
                        } else {
                            s@.len() - 1
                        };
                        let hi = if j + pow2(level + 1) <= s@.len() {
                            j + pow2(level + 1) - 1
                        } else {
                            s@.len() - 1
                        };
                        assert(pow2(level + 1) == 2 * pow2(level));
                        assert(hi1 == k - 1);
                        assert(hi2 == hi);
                        lemma_min_in_cover(s@, j as int, hi, k as int, k - 1);
                    }
                    m
                } else {
                    let a = data[data.len() - 1][j];
                    proof {
                        assert(pow2(level + 1) == 2 * pow2(level));
                        assert(j + pow2(level + 1) > s@.len());
                    }
                    a
                };
                row.push(v);
                j += 1;
            }
            data.push(row);
            step = step * 2;
            proof {
                level = level + 1;
                assert(pow2(level) == step);
            }
        }
        let r = SparseTable { s: sc, data };
        proof {
            assert forall|w: nat|
                1 <= w <= s@.len() implies #[trigger] pow2_floor_level(w) < r.data@.len() by {
                lemma_pow2_floor_level(w);
                let lv = pow2_floor_level(w);
                assert(pow2(lv) <= w);
                if lv >= r.data@.len() {
                    assert(lv >= level + 1);
                    lemma_pow2_increases(level + 1, lv);
                    assert(pow2(level + 1) <= pow2(lv));
                    assert(pow2(level + 1) == 2 * pow2(level));
                    assert(2 * step > n);
                    assert(false);
                }
            }
        }
        r
    }

    /// The minimum over `seq[l..=r]`, from two overlapping power-of-two
    /// windows.
    pub fn query(&self, l: usize, r: usize) -> (res: u64)
        requires
            self.wf(),
            l <= r,
            r < self.seq().len(),
        ensures
            res == min_in(self.seq(), l as int, r as int),
    {
        let n = self.s.len();
        proof {
            assert(n == self.seq().len());
        }
        let len = r - l + 1;
        let mut w: usize = 1;
        let mut lg: usize = 0;
        while w <= len / 2
            invariant
                w == pow2(lg as nat),
                1 <= w,
                lg + 1 <= w,
                w <= len,
                len <= n,
                n == self.seq().len(),
            decreases len - w,
        {
            proof {
                lemma_pow2_ge(lg as nat + 1);
            }
            w = w * 2;
            lg += 1;
        }
        proof {
            lemma_pow2_floor_level_unique(len as nat, lg as nat);
            assert(lg == pow2_floor_level(len as nat));
            assert(1 <= len as nat <= self.s@.len());
            assert(pow2_floor_level(len as nat) < self.data@.len());
        }
        let a = self.data[lg][l];
        let b = self.data[lg][r + 1 - w];
        proof {
            let hi1 = if l + pow2(lg as nat) <= self.seq().len() {
                l + pow2(lg as nat) - 1
            } else {
                self.seq().len() - 1
            };
            assert(hi1 == l + w - 1);
            let a2 = r + 1 - w;
            let hi2 = if a2 + pow2(lg as nat) <= self.seq().len() {
                a2 + pow2(lg as nat) - 1
            } else {
                self.seq().len() - 1
            };
            assert(hi2 == r);
            lemma_min_in_cover(self.seq(), l as int, r as int, a2 as int, l + w - 1);
        }
        if a < b {
            a
        } else {
            b
        }
    }
}

/// The level of the largest power of two not exceeding `w`.
pub open spec fn pow2_floor_level(w: nat) -> nat
    recommends
        1 <= w,
    decreases w,
{
    if w <= 1 {
        0
    } else {
        1 + pow2_floor_level(w / 2)
    }
}

pub proof fn lemma_pow2_floor_level(w: nat)
    requires
        1 <= w,
    ensures
        pow2(pow2_floor_level(w)) <= w,
        2 * pow2(pow2_floor_level(w)) > w,
    decreases w,
{
    if w > 1 {
        lemma_pow2_floor_level(w / 2);
    }
}

pub proof fn lemma_pow2_ge(i: nat)
    ensures
        pow2(i) >= i + 1,
    decreases i,
{
    if i > 0 {
        lemma_pow2_ge((i - 1) as nat);
    }
}

pub proof fn lemma_pow2_increases(a: nat, b: nat)
    requires
        a <= b,
    ensures
        pow2(a) <= pow2(b),
    decreases b,
{
    if a < b {
        lemma_pow2_increases(a, (b - 1) as nat);
    }
}

/// A level whose power of two floors `w` is the floor level.
pub proof fn lemma_pow2_floor_level_unique(w: nat, lv: nat)
    requires
        1 <= w,
        pow2(lv) <= w,
        2 * pow2(lv) > w,
    ensures
        lv == pow2_floor_level(w),
    decreases w,
{
    if w <= 1 {
        if lv > 0 {
            lemma_pow2_increases(1, lv);
        }
    } else {
        if lv == 0 {
            lemma_pow2_floor_level(w);
            let f = pow2_floor_level(w);
            if f > 0 {
                lemma_pow2_increases(1, f);
            }
            assert(2 * pow2(0nat) > w);
            assert(false);
        } else {
            lemma_pow2_floor_level_unique(w / 2, (lv - 1) as nat);
        }
    }
}

} // verus!
