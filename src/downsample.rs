//! Reduction of one bucket of a cache level to two representative entries.
use vstd::prelude::*;

verus! {

/// One cache entry: position relative to the line's origin, and value.
pub type Entry = (i128, i64);

/// One input sample: absolute position and value, `None` marking a gap.
pub type Sample = (i64, Option<i64>);

/// How a bucket is reduced to two entries.
#[derive(Clone, Copy, Debug, PartialEq, Eq, Structural)]
pub enum DownsamplingMethod {
    /// Reserved: yields two zero entries.
    Off,
    /// The minimum and the maximum of the bucket, in bucket order.
    MinMax,
    /// Reserved: yields two zero entries.
    Mean,
}

/// Index of the first entry with the smallest value.
pub open spec fn min_index(b: Seq<Entry>) -> int
    decreases b.len(),
{
    if b.len() <= 1 {
        0
    } else {
        let k = min_index(b.drop_last());
        if b.last().1 < b[k].1 {
            b.len() - 1
        } else {
            k
        }
    }
}

/// Index of the first entry with the largest value.
pub open spec fn max_index(b: Seq<Entry>) -> int
    decreases b.len(),
{
    if b.len() <= 1 {
        0
    } else {
        let k = max_index(b.drop_last());
        if b.last().1 > b[k].1 {
            b.len() - 1
        } else {
            k
        }
    }
}

/// `min_index` is the first position of the smallest value.
pub proof fn lemma_min_index(b: Seq<Entry>)
    requires
        b.len() > 0,
    ensures
        0 <= min_index(b) < b.len(),
        forall|k: int| 0 <= k < b.len() ==> b[min_index(b)].1 <= #[trigger] b[k].1,
        forall|k: int| 0 <= k < min_index(b) ==> b[min_index(b)].1 < #[trigger] b[k].1,
    decreases b.len(),
{
    if b.len() > 1 {
        let p = b.drop_last();
        lemma_min_index(p);
        assert forall|k: int| 0 <= k < b.len() implies b[min_index(b)].1 <= #[trigger] b[k].1 by {
            if k < p.len() {
                assert(p[k] == b[k]);
            }
        }
        assert forall|k: int| 0 <= k < min_index(b) implies b[min_index(b)].1 < #[trigger] b[k].1 by {
            assert(p[k] == b[k]);
        }
    }
}

/// `max_index` is the first position of the largest value.
pub proof fn lemma_max_index(b: Seq<Entry>)
    requires
        b.len() > 0,
    ensures
        0 <= max_index(b) < b.len(),
        forall|k: int| 0 <= k < b.len() ==> b[max_index(b)].1 >= #[trigger] b[k].1,
        forall|k: int| 0 <= k < max_index(b) ==> b[max_index(b)].1 > #[trigger] b[k].1,
    decreases b.len(),
{
    if b.len() > 1 {
        let p = b.drop_last();
        lemma_max_index(p);
        assert forall|k: int| 0 <= k < b.len() implies b[max_index(b)].1 >= #[trigger] b[k].1 by {
            if k < p.len() {
                assert(p[k] == b[k]);
            }
        }
        assert forall|k: int| 0 <= k < max_index(b) implies b[max_index(b)].1 > #[trigger] b[k].1 by {
            assert(p[k] == b[k]);
        }
    }
}

/// Where a bucket holds its minimum only at `i` and its maximum only at
/// `j`, min-max reduction yields exactly those two entries, in bucket order.
pub proof fn lemma_min_max_picks_extremes(b: Seq<Entry>, i: int, j: int)
    requires
        0 <= i < b.len(),
        0 <= j < b.len(),
        i != j,
        forall|k: int| 0 <= k < b.len() && k != i ==> b[i].1 < #[trigger] b[k].1,
        forall|k: int| 0 <= k < b.len() && k != j ==> b[j].1 > #[trigger] b[k].1,
    ensures
        DownsamplingMethod::MinMax.reduce(b) == (if i < j {
            (b[i], b[j])
        } else {
            (b[j], b[i])
        }),
{
    lemma_min_index(b);
    lemma_max_index(b);
    assert(b[min_index(b)].1 <= b[i].1);
    assert(b[max_index(b)].1 >= b[j].1);
}

/// Whether the positions of `s` never decrease.
pub open spec fn sorted(s: Seq<Entry>) -> bool {
    forall|i: int, j: int| 0 <= i <= j < s.len() ==> s[i].0 <= s[j].0
}

/// Number of buckets that a level of `len` entries is cut into; the last
/// one may be partial.
pub open spec fn num_buckets(len: int) -> int {
    (len + 7) / 8
}

/// Bucket `c` of `s`.
pub open spec fn bucket(s: Seq<Entry>, c: int) -> Seq<Entry> {
    s.subrange(8 * c, if 8 * c + 8 <= s.len() { 8 * c + 8 } else { s.len() as int })
}

/// Whether `new` keeps every whole bucket of `old` but the last: what a
/// level still holds of its earlier content after it has grown.
pub open spec fn keeps_prefix(old: Seq<Entry>, new: Seq<Entry>) -> bool {
    &&& new.len() >= old.len()
    &&& forall|j: int| 0 <= j < 8 * (num_buckets(old.len() as int) - 1) ==> #[trigger] new[j] == old[j]
}

impl DownsamplingMethod {
    /// The two entries that stand for bucket `b`.
    pub open spec fn reduce(self, b: Seq<Entry>) -> (Entry, Entry) {
        match self {
            DownsamplingMethod::MinMax => {
                let i = min_index(b);
                let j = max_index(b);
                if i < j {
                    (b[i], b[j])
                } else {
                    (b[j], b[i])
                }
            },
            _ => ((0, 0), (0, 0)),
        }
    }

    /// A whole level reduced bucket by bucket: entries `2c` and `2c + 1`
    /// stand for bucket `c`.
    pub open spec fn reduce_all(self, s: Seq<Entry>) -> Seq<Entry> {
        Seq::new(
            (2 * num_buckets(s.len() as int)) as nat,
            |j: int|
                {
                    let p = self.reduce(bucket(s, j / 2));
                    if j % 2 == 0 {
                        p.0
                    } else {
                        p.1
                    }
                },
        )
    }

    /// A level reduced keeps as much of its earlier reduction as the level
    /// kept of its earlier content.
    pub proof fn lemma_reduce_keeps_prefix(self, old: Seq<Entry>, new: Seq<Entry>)
        requires
            keeps_prefix(old, new),
        ensures
            keeps_prefix(self.reduce_all(old), self.reduce_all(new)),
            forall|j: int|
                0 <= j < 2 * num_buckets(old.len() as int) - 2 ==> #[trigger] self.reduce_all(new)[j]
                    == self.reduce_all(old)[j],
            old.len() > 0 ==> 8 * (num_buckets(old.len() as int) - 1) < old.len(),
    {
        let n = num_buckets(old.len() as int);
        let ro = self.reduce_all(old);
        let rn = self.reduce_all(new);
        assert(num_buckets(new.len() as int) >= n) by (nonlinear_arith)
            requires new.len() >= old.len(), n == num_buckets(old.len() as int);
        assert(8 * (num_buckets(2 * n) - 1) <= 2 * n - 2 || n == 0) by (nonlinear_arith)
            requires n >= 0;
        assert(old.len() > 0 ==> 8 * (n - 1) < old.len()) by (nonlinear_arith)
            requires n == num_buckets(old.len() as int);
        assert forall|j: int| 0 <= j < 2 * n - 2 implies #[trigger] rn[j] == ro[j] by {
            let c = j / 2;
            assert(8 * c + 8 <= 8 * (n - 1)) by (nonlinear_arith)
                requires c == j / 2, 0 <= j < 2 * n - 2;
            assert(8 * (n - 1) < old.len()) by (nonlinear_arith)
                requires n == num_buckets(old.len() as int), n > 0;
            assert(bucket(new, c) =~= bucket(old, c));
        }
    }

    /// Reduced length of a level of `len` entries, and no longer than the
    /// level once it holds more than a bucket.
    pub proof fn lemma_reduce_len(self, s: Seq<Entry>)
        ensures
            self.reduce_all(s).len() == 2 * num_buckets(s.len() as int),
            s.len() >= 2 ==> self.reduce_all(s).len() <= s.len(),
            self.reduce_all(s).len() % 2 == 0,
    {
        let l = s.len() as int;
        assert(l >= 2 ==> 2 * ((l + 7) / 8) <= l) by (nonlinear_arith);
    }

    /// Each reduced entry is an entry of its bucket, by min-max; the
    /// reserved modes yield zero entries.
    proof fn lemma_reduce_entry(self, s: Seq<Entry>, j: int)
        requires
            0 <= j < self.reduce_all(s).len(),
        ensures
            self == DownsamplingMethod::MinMax ==> exists|t: int|
                0 <= t < 8 && 8 * (j / 2) + t < s.len() && self.reduce_all(s)[j] == #[trigger] s[8 * (j / 2) + t],
            self != DownsamplingMethod::MinMax ==> self.reduce_all(s)[j] == (0i128, 0i64),
    {
        let c = j / 2;
        self.lemma_reduce_len(s);
        assert(8 * c < s.len()) by (nonlinear_arith)
            requires c == j / 2, 0 <= j < 2 * ((s.len() + 7) / 8);
        let b = bucket(s, c);
        if self == DownsamplingMethod::MinMax {
            lemma_min_index(b);
            lemma_max_index(b);
            let t = if j % 2 == 0 {
                if min_index(b) < max_index(b) { min_index(b) } else { max_index(b) }
            } else {
                if min_index(b) < max_index(b) { max_index(b) } else { min_index(b) }
            };
            assert(b[t] == s[8 * c + t]);
        }
    }

    /// Reducing a sorted level gives a sorted level: min-max keeps bucket
    /// order, and buckets follow each other.
    pub proof fn lemma_reduce_sorted(self, s: Seq<Entry>)
        requires
            sorted(s),
        ensures
            sorted(self.reduce_all(s)),
    {
        let r = self.reduce_all(s);
        assert forall|i: int, j: int| 0 <= i <= j < r.len() implies r[i].0 <= r[j].0 by {
            self.lemma_reduce_entry(s, i);
            self.lemma_reduce_entry(s, j);
            if self == DownsamplingMethod::MinMax && i < j {
                if i / 2 == j / 2 {
                    let b = bucket(s, i / 2);
                    lemma_min_index(b);
                    lemma_max_index(b);
                    let c = i / 2;
                    assert(i % 2 == 0 && j % 2 == 1);
                    let lo = if min_index(b) < max_index(b) { min_index(b) } else { max_index(b) };
                    let hi = if min_index(b) < max_index(b) { max_index(b) } else { min_index(b) };
                    assert(r[i] == b[lo] && r[j] == b[hi]);
                    assert(b[lo] == s[8 * c + lo]);
                    assert(b[hi] == s[8 * c + hi]);
                } else {
                    let ti = choose|t: int| 0 <= t < 8 && 8 * (i / 2) + t < s.len() && r[i] == #[trigger] s[8 * (i / 2) + t];
                    let tj = choose|t: int| 0 <= t < 8 && 8 * (j / 2) + t < s.len() && r[j] == #[trigger] s[8 * (j / 2) + t];
                    assert(i / 2 < j / 2);
                    assert(8 * (i / 2) + ti < 8 * (j / 2) + tj);
                    assert(s[8 * (i / 2) + ti].0 <= s[8 * (j / 2) + tj].0);
                }
            }
        }
    }

    /// Reduces a non-empty bucket to two entries.
    pub fn downsample(&self, b: &[Entry]) -> (r: (Entry, Entry))
        requires
            b@.len() > 0,
        ensures
            r == self.reduce(b@),
    {
        match self {
            DownsamplingMethod::MinMax => {
                let mut mi: usize = 0;
                let mut ma: usize = 0;
                let mut i: usize = 1;
                while i < b.len()
                    invariant
                        1 <= i <= b@.len(),
                        mi == min_index(b@.subrange(0, i as int)),
                        ma == max_index(b@.subrange(0, i as int)),
                        mi < i,
                        ma < i,
                    decreases b@.len() - i,
                {
                    proof {
                        assert(b@.subrange(0, i + 1).drop_last() =~= b@.subrange(0, i as int));
                    }
                    if b[i].1 < b[mi].1 {
                        mi = i;
                    }
                    if b[i].1 > b[ma].1 {
                        ma = i;
                    }
                    i = i + 1;
                }
                proof {
                    assert(b@.subrange(0, b@.len() as int) =~= b@);
                }
                if mi < ma {
                    (b[mi], b[ma])
                } else {
                    (b[ma], b[mi])
                }
            },
            _ => ((0, 0), (0, 0)),
        }
    }
}

} // verus!
