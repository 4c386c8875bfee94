//! The multi-resolution cache of one line: ingestion with change detection,
//! level maintenance, and selection of the level that fits a view.
use vstd::prelude::*;
use vstd::slice::slice_subrange;

use crate::downsample::{bucket, keeps_prefix, num_buckets, sorted, DownsamplingMethod, Entry, Sample};
use crate::{MAX_DOWNSAMPLING_STEPS, MAX_POINTS};

verus! {

/// The visible area of a plot, in relative positions and values.
#[derive(Clone, Copy, Debug, PartialEq, Eq, Structural)]
pub struct PlotBounds {
    pub min_x: i128,
    pub max_x: i128,
    pub min_y: i64,
    pub max_y: i64,
}

/// Length and first sample of the sequence seen by the last ingest.
#[derive(Clone, Copy, Debug)]
struct CacheDescriptor {
    len: usize,
    first_data_point: Option<Sample>,
}

/// Cache of one line: level 0 holds every non-gap sample, translated to a
/// position relative to the first one; level `k > 0` is level `k - 1`
/// reduced bucket by bucket.
///
/// Change detection looks only at the length and the first sample of what
/// is ingested. A sequence of the same length and first sample as before is
/// taken as unchanged, so an edit elsewhere that keeps both goes unnoticed
/// until `clear_caches` is called.
#[derive(Debug)]
pub struct TimeseriesLineMemory {
    downsampling_method: DownsamplingMethod,
    cached_data: Option<CacheDescriptor>,
    cache_levels: Vec<Vec<Entry>>,
    view_cache: Option<(PlotBounds, Vec<Entry>)>,
    x_axis_origin: Option<i64>,
}

/// Origin after translating `s` from origin `o`: the first position of a
/// non-gap sample, once one has been seen.
pub open spec fn origin_after(o: Option<i64>, s: Seq<Sample>) -> Option<i64>
    decreases s.len(),
{
    if s.len() == 0 {
        o
    } else {
        let p = origin_after(o, s.drop_last());
        if p is None && s.last().1 is Some {
            Some(s.last().0)
        } else {
            p
        }
    }
}

/// The level-0 entries for `s`, starting from origin `o`: gaps are dropped,
/// positions become offsets from the origin.
pub open spec fn translated(o: Option<i64>, s: Seq<Sample>) -> Seq<Entry>
    decreases s.len(),
{
    if s.len() == 0 {
        Seq::empty()
    } else {
        let prev = translated(o, s.drop_last());
        match s.last().1 {
            Some(y) => {
                let org = origin_after(o, s);
                prev.push(((s.last().0 - org->0) as i128, y))
            },
            None => prev,
        }
    }
}

/// Whether entry `e` lies before `x` (or at it, when `inclusive`).
pub open spec fn below(e: Entry, x: i128, inclusive: bool) -> bool {
    if inclusive {
        e.0 <= x
    } else {
        e.0 < x
    }
}

/// The index found by bisecting `s[lo..hi]` for the first entry not below
/// `x`; on a level sorted by position it is the number of entries below `x`.
pub open spec fn partition(s: Seq<Entry>, x: i128, inclusive: bool, lo: int, hi: int) -> int
    decreases hi - lo,
{
    if lo >= hi {
        lo
    } else {
        let mid = lo + (hi - lo) / 2;
        if below(s[mid], x, inclusive) {
            partition(s, x, inclusive, mid + 1, hi)
        } else {
            partition(s, x, inclusive, lo, mid)
        }
    }
}

/// First index of the slice of `level` shown for `b`: one entry before the
/// first at or after `b.min_x`, where there is one.
pub open spec fn slice_begin(level: Seq<Entry>, b: PlotBounds) -> int {
    let p = partition(level, b.min_x, false, 0, level.len() as int);
    if p >= 1 {
        p - 1
    } else {
        0
    }
}

/// End (exclusive) of the slice of `level` shown for `b`: one entry past
/// the last at or before `b.max_x`, where there is one.
pub open spec fn slice_end(level: Seq<Entry>, b: PlotBounds) -> int {
    let q = partition(level, b.max_x, true, 0, level.len() as int);
    let e = if q + 1 <= level.len() {
        q + 1
    } else {
        level.len() as int
    };
    if e >= slice_begin(level, b) {
        e
    } else {
        slice_begin(level, b)
    }
}

/// The finest level, from `i` on, whose slice for `b` holds fewer than
/// `MAX_POINTS` entries; the coarsest level if none does.
pub open spec fn chosen_level(levels: Seq<Seq<Entry>>, b: PlotBounds, i: int) -> int
    decreases levels.len() - i,
{
    if i + 1 >= levels.len() {
        i
    } else if slice_end(levels[i], b) - slice_begin(levels[i], b) < MAX_POINTS {
        i
    } else {
        chosen_level(levels, b, i + 1)
    }
}

/// The slice `level[bg..en]`, anchored: where it misses the level's first
/// entry, a point at the level's first position with the slice's first
/// value leads; where it misses the last entry, a point at the level's last
/// position with the slice's last value ends it.
pub open spec fn anchored(level: Seq<Entry>, bg: int, en: int) -> Seq<Entry> {
    let mid = level.subrange(bg, en);
    let front = if bg > 0 && mid.len() > 0 {
        seq![(level[0].0, mid[0].1)] + mid
    } else {
        mid
    };
    if en < level.len() && mid.len() > 0 {
        front.push((level.last().0, mid.last().1))
    } else {
        front
    }
}

/// The points shown for `b`.
pub open spec fn select(levels: Seq<Seq<Entry>>, b: PlotBounds) -> Seq<Entry> {
    let k = chosen_level(levels, b, 0);
    anchored(levels[k], slice_begin(levels[k], b), slice_end(levels[k], b))
}

/// Whether `levels` is the full set of levels built from `levels[0]`: each
/// level is its parent reduced, a level exists only where its parent holds
/// more than `MAX_POINTS` entries, and growth stops only there or at the
/// last allowed level.
pub open spec fn levels_wf(m: DownsamplingMethod, levels: Seq<Seq<Entry>>) -> bool {
    &&& 1 <= levels.len() <= MAX_DOWNSAMPLING_STEPS + 1
    &&& forall|k: int|
        1 <= k < levels.len() ==> #[trigger] levels[k] == m.reduce_all(levels[k - 1])
            && levels[k - 1].len() > MAX_POINTS
    &&& levels.len() == MAX_DOWNSAMPLING_STEPS + 1 || levels.last().len() <= MAX_POINTS
}

/// Facts on the origin after translating `s`: it stays once set, and it is
/// unset exactly while no entry has been produced.
pub proof fn lemma_origin(o: Option<i64>, s: Seq<Sample>)
    ensures
        o is Some ==> origin_after(o, s) == o,
        (origin_after(o, s) is None) == (o is None && translated(o, s).len() == 0),
    decreases s.len(),
{
    if s.len() > 0 {
        lemma_origin(o, s.drop_last());
    }
}

/// Appends to `out` the reduction of `parent` from bucket `c0` on.
fn reduce_from(m: DownsamplingMethod, parent: &Vec<Entry>, c0: usize, out: &mut Vec<Entry>)
    requires
        8 * c0 <= parent@.len(),
        old(out)@ == m.reduce_all(parent@).take(2 * c0),
    ensures
        final(out)@ == m.reduce_all(parent@),
{
    let len = parent.len();
    let mut c: usize = c0;
    let mut s: usize = 8 * c0;
    proof {
        m.lemma_reduce_len(parent@);
    }
    while s < len
        invariant
            len == parent@.len(),
            s as int == (if 8 * c <= len { 8 * c } else { len as int }),
            c <= num_buckets(len as int),
            out@ == m.reduce_all(parent@).take(2 * c),
            m.reduce_all(parent@).len() == 2 * num_buckets(len as int),
        decreases len - s,
    {
        let e: usize = if len - s > 8 {
            s + 8
        } else {
            len
        };
        let pair = m.downsample(slice_subrange(parent.as_slice(), s, e));
        proof {
            assert(bucket(parent@, c as int) =~= parent@.subrange(s as int, e as int));
        }
        out.push(pair.0);
        out.push(pair.1);
        proof {
            assert(out@ =~= m.reduce_all(parent@).take(2 * c + 2));
        }
        c = c + 1;
        s = e;
    }
    proof {
        assert(out@ =~= m.reduce_all(parent@));
    }
}

/// First sample of `data`, if any.
pub open spec fn first_of(data: Seq<Sample>) -> Option<Sample> {
    if data.len() > 0 {
        Some(data[0])
    } else {
        None
    }
}

/// Length recorded by descriptor `d`.
pub open spec fn known_len(d: Option<(int, Option<Sample>)>) -> int {
    match d {
        Some(p) => p.0,
        None => 0,
    }
}

/// Whether ingesting `data` rebuilds a cache whose last ingest left
/// descriptor `d`: there was none, the sequence got shorter, or its first
/// sample changed.
pub open spec fn rebuilds(d: Option<(int, Option<Sample>)>, data: Seq<Sample>) -> bool {
    match d {
        None => true,
        Some(d) => data.len() < d.0 || first_of(data) != d.1,
    }
}

/// The bisection stays within `lo..=hi`.
pub proof fn lemma_partition_bounds(s: Seq<Entry>, x: i128, inclusive: bool, lo: int, hi: int)
    requires
        lo <= hi,
    ensures
        lo <= partition(s, x, inclusive, lo, hi) <= hi,
    decreases hi - lo,
{
    if lo < hi {
        let mid = lo + (hi - lo) / 2;
        lemma_partition_bounds(s, x, inclusive, mid + 1, hi);
        lemma_partition_bounds(s, x, inclusive, lo, mid);
    }
}

/// Bisects `level` for the first entry not below `x`.
fn partition_point(level: &Vec<Entry>, x: i128, inclusive: bool) -> (r: usize)
    ensures
        r == partition(level@, x, inclusive, 0, level@.len() as int),
        r <= level@.len(),
{
    let mut lo: usize = 0;
    let mut hi: usize = level.len();
    while lo < hi
        invariant
            lo <= hi <= level@.len(),
            partition(level@, x, inclusive, lo as int, hi as int) == partition(
                level@,
                x,
                inclusive,
                0,
                level@.len() as int,
            ),
        decreases hi - lo,
    {
        let mid = lo + (hi - lo) / 2;
        let e = level[mid];
        let is_below = if inclusive {
            e.0 <= x
        } else {
            e.0 < x
        };
        if is_below {
            lo = mid + 1;
        } else {
            hi = mid;
        }
    }
    proof {
        lemma_partition_bounds(level@, x, inclusive, 0, level@.len() as int);
    }
    lo
}

/// The slice of `level` shown for `b`.
fn slice_bounds(level: &Vec<Entry>, b: PlotBounds) -> (r: (usize, usize))
    ensures
        r.0 == slice_begin(level@, b),
        r.1 == slice_end(level@, b),
        r.0 <= r.1 <= level@.len(),
{
    let len = level.len();
    let p = partition_point(level, b.min_x, false);
    let bg: usize = if p >= 1 {
        p - 1
    } else {
        0
    };
    let q = partition_point(level, b.max_x, true);
    let e: usize = if q < len {
        q + 1
    } else {
        len
    };
    let en: usize = if e >= bg {
        e
    } else {
        bg
    };
    (bg, en)
}

/// The anchored slice `level[bg..en]`.
fn anchored_points(level: &Vec<Entry>, bg: usize, en: usize) -> (r: Vec<Entry>)
    requires
        bg <= en <= level@.len(),
    ensures
        r@ == anchored(level@, bg as int, en as int),
{
    let mut out: Vec<Entry> = Vec::new();
    if bg > 0 && en > bg {
        out.push((level[0].0, level[bg].1));
    }
    let ghost lead = out@;
    let mut j: usize = bg;
    while j < en
        invariant
            bg <= j <= en <= level@.len(),
            out@ == lead + level@.subrange(bg as int, j as int),
        decreases en - j,
    {
        out.push(level[j]);
        proof {
            assert(out@ =~= lead + level@.subrange(bg as int, j + 1));
        }
        j = j + 1;
    }
    if en < level.len() && en > bg {
        out.push((level[level.len() - 1].0, level[en - 1].1));
    }
    proof {
        let mid = level@.subrange(bg as int, en as int);
        if bg > 0 && en > bg {
            assert(lead + mid =~= seq![(level@[0].0, mid[0].1)] + mid);
        } else {
            assert(lead + mid =~= mid);
        }
    }
    out
}

/// A copy of `v`.
fn copy_entries(v: &Vec<Entry>) -> (r: Vec<Entry>)
    ensures
        r@ == v@,
{
    let mut out: Vec<Entry> = Vec::new();
    let mut j: usize = 0;
    while j < v.len()
        invariant
            j <= v@.len(),
            out@ == v@.subrange(0, j as int),
        decreases v@.len() - j,
    {
        out.push(v[j]);
        proof {
            assert(out@ =~= v@.subrange(0, j + 1));
        }
        j = j + 1;
    }
    proof {
        assert(out@ =~= v@);
    }
    out
}

/// Index from which an ingest of a sequence of `len` samples starting with
/// `first` needs the samples: 0 for a rebuild, the old length for an
/// extension, none where the cache is taken as up to date.
pub open spec fn start_of(d: Option<(int, Option<Sample>)>, len: int, first: Option<Sample>) -> Option<int> {
    match d {
        None => Some(0),
        Some(p) => if len < p.0 || first != p.1 {
            Some(0)
        } else if len > p.0 {
            Some(p.0)
        } else {
            None
        },
    }
}

/// Whether `tail` is what an ingest from `start` needs of a sequence of
/// `len` samples starting with `first`.
pub open spec fn tail_fits(start: Option<int>, len: int, first: Option<Sample>, tail: Seq<Sample>) -> bool {
    match start {
        Some(k) => tail.len() == len - k && (k == 0 ==> first_of(tail) == first),
        None => true,
    }
}

/// Whether `data` is a sequence of `len` samples starting with `first`
/// whose samples from `start` on are `tail`.
pub open spec fn extends_tail(
    data: Seq<Sample>,
    start: Option<int>,
    len: int,
    first: Option<Sample>,
    tail: Seq<Sample>,
) -> bool {
    &&& data.len() == len
    &&& first_of(data) == first
    &&& start matches Some(k) ==> data.subrange(k, len) == tail
}

/// What an ingest of `data` makes of cache `pre`: `post` records the new
/// length and first sample; a rebuild holds exactly the translated
/// sequence in level 0; an extension appends the translated new tail to
/// level 0; an ingest of the same length changes nothing. The coarser
/// levels follow from level 0 by the invariant.
pub open spec fn ingested(
    pre: TimeseriesLineMemory,
    post: TimeseriesLineMemory,
    data: Seq<Sample>,
) -> bool {
    let d = pre.descriptor();
    let tail = data.subrange(known_len(d), data.len() as int);
    &&& post.wf()
    &&& levels_wf(post.method(), post.levels())
    &&& post.method() == pre.method()
    &&& post.descriptor() == Some((data.len() as int, first_of(data)))
    &&& rebuilds(d, data) ==> {
        &&& post.levels()[0] == translated(None, data)
        &&& post.origin() == origin_after(None, data)
        &&& post.memo() is None
    }
    &&& !rebuilds(d, data) && data.len() > known_len(d) ==> {
        &&& post.levels()[0] == pre.levels()[0] + translated(pre.origin(), tail)
        &&& post.origin() == origin_after(pre.origin(), tail)
        &&& post.memo() is None
    }
    &&& !rebuilds(d, data) && data.len() == known_len(d) ==> {
        &&& post.levels() == pre.levels()
        &&& post.origin() == pre.origin()
        &&& post.memo() == pre.memo()
    }
}

/// What a query for `b` returning `r` makes of cache `pre`: `r` is the
/// selection for `b` from the unchanged levels, and is remembered for `b`;
/// where `pre` remembered points for `b`, `r` is those points.
pub open spec fn queried(
    pre: TimeseriesLineMemory,
    post: TimeseriesLineMemory,
    b: PlotBounds,
    r: Seq<Entry>,
) -> bool {
    &&& post.wf()
    &&& levels_wf(post.method(), post.levels())
    &&& r == select(post.levels(), b)
    &&& post.levels() == pre.levels()
    &&& post.method() == pre.method()
    &&& post.descriptor() == pre.descriptor()
    &&& post.origin() == pre.origin()
    &&& post.memo() == Some((b, r))
    &&& pre.memo() matches Some(v) ==> (v.0 == b ==> r == v.1)
}

/// Whether `l` is a cache that nothing has been ingested into.
pub open spec fn fresh(l: TimeseriesLineMemory, m: DownsamplingMethod) -> bool {
    &&& l.wf()
    &&& levels_wf(m, l.levels())
    &&& l.method() == m
    &&& l.levels() == seq![Seq::<Entry>::empty()]
    &&& l.descriptor() is None
    &&& l.origin() is None
    &&& l.memo() is None
}

/// The last position of level 0, if any.
pub open spec fn line_end(l: TimeseriesLineMemory) -> Option<i128> {
    if l.levels()[0].len() > 0 {
        Some(l.levels()[0].last().0)
    } else {
        None
    }
}

/// Whether exactly the first `p` entries of `s` lie below `x`.
pub open spec fn splits_at(s: Seq<Entry>, x: i128, inclusive: bool, p: int) -> bool {
    &&& 0 <= p <= s.len()
    &&& forall|i: int| 0 <= i < p ==> below(#[trigger] s[i], x, inclusive)
    &&& forall|i: int| p <= i < s.len() ==> !below(#[trigger] s[i], x, inclusive)
}

proof fn lemma_partition_sorted_from(s: Seq<Entry>, x: i128, inclusive: bool, lo: int, hi: int)
    requires
        sorted(s),
        0 <= lo <= hi <= s.len(),
        forall|i: int| 0 <= i < lo ==> below(#[trigger] s[i], x, inclusive),
        forall|i: int| hi <= i < s.len() ==> !below(#[trigger] s[i], x, inclusive),
    ensures
        splits_at(s, x, inclusive, partition(s, x, inclusive, lo, hi)),
    decreases hi - lo,
{
    if lo < hi {
        let mid = lo + (hi - lo) / 2;
        if below(s[mid], x, inclusive) {
            assert forall|i: int| 0 <= i < mid + 1 implies below(#[trigger] s[i], x, inclusive) by {
                assert(s[i].0 <= s[mid].0);
            }
            lemma_partition_sorted_from(s, x, inclusive, mid + 1, hi);
        } else {
            assert forall|i: int| mid <= i < s.len() implies !below(#[trigger] s[i], x, inclusive) by {
                assert(s[mid].0 <= s[i].0);
            }
            lemma_partition_sorted_from(s, x, inclusive, lo, mid);
        }
    }
}

/// On a sorted level the bisection finds the number of entries below `x`:
/// exactly those before it lie below `x`.
pub proof fn lemma_partition_sorted(s: Seq<Entry>, x: i128, inclusive: bool)
    requires
        sorted(s),
    ensures
        splits_at(s, x, inclusive, partition(s, x, inclusive, 0, s.len() as int)),
{
    lemma_partition_sorted_from(s, x, inclusive, 0, s.len() as int);
}

/// On a sorted, non-empty level and bounds with `min_x <= max_x`, the slice
/// shown is not empty: it runs from one entry before the first at or after
/// `min_x` to one entry past the last at or before `max_x`.
pub proof fn lemma_slice_sorted(level: Seq<Entry>, b: PlotBounds)
    requires
        sorted(level),
        level.len() > 0,
        b.min_x <= b.max_x,
    ensures
        slice_begin(level, b) < slice_end(level, b),
{
    let n = level.len() as int;
    lemma_partition_sorted(level, b.min_x, false);
    lemma_partition_sorted(level, b.max_x, true);
    let p = partition(level, b.min_x, false, 0, n);
    let q = partition(level, b.max_x, true, 0, n);
    if p > q {
        assert(below(level[q], b.min_x, false));
        assert(!below(level[q], b.max_x, true));
    }
}

/// Whether the positions of the samples `s` never decrease.
pub open spec fn positions_sorted(s: Seq<Sample>) -> bool {
    forall|i: int, j: int| 0 <= i <= j < s.len() ==> s[i].0 <= s[j].0
}

/// Samples in order of position translate to entries in order of position,
/// none past the last sample's offset.
pub proof fn lemma_translated_sorted(o: Option<i64>, s: Seq<Sample>)
    requires
        positions_sorted(s),
    ensures
        sorted(translated(o, s)),
        translated(o, s).len() > 0 ==> origin_after(o, s) is Some && translated(o, s).last().0
            <= s.last().0 - origin_after(o, s)->0,
    decreases s.len(),
{
    if s.len() > 0 {
        let p = s.drop_last();
        assert forall|i: int, j: int| 0 <= i <= j < p.len() implies p[i].0 <= p[j].0 by {
            assert(p[i] == s[i] && p[j] == s[j]);
        }
        lemma_translated_sorted(o, p);
        lemma_origin(o, p);
        let tp = translated(o, p);
        if p.len() > 0 {
            assert(p.last() == s[s.len() - 2]);
            assert(s[s.len() - 2].0 <= s.last().0);
        }
        let t = translated(o, s);
        if s.last().1 is Some {
            if tp.len() > 0 {
                assert forall|i: int, j: int| 0 <= i <= j < t.len() implies t[i].0 <= t[j].0 by {
                    if j == t.len() - 1 && i < j {
                        assert(t[i] == tp[i]);
                        assert(tp[i].0 <= tp.last().0);
                    } else if j < t.len() - 1 {
                        assert(t[i] == tp[i] && t[j] == tp[j]);
                    }
                }
            } else {
                assert(t.len() == 1);
            }
        }
    }
}

/// Where level 0 is sorted, so is every level.
pub proof fn lemma_levels_sorted(m: DownsamplingMethod, levels: Seq<Seq<Entry>>, k: int)
    requires
        levels_wf(m, levels),
        sorted(levels[0]),
        0 <= k < levels.len(),
    ensures
        sorted(levels[k]),
    decreases k,
{
    if k > 0 {
        lemma_levels_sorted(m, levels, k - 1);
        assert(levels[k] == m.reduce_all(levels[k - 1]));
        m.lemma_reduce_sorted(levels[k - 1]);
    }
}

/// A rebuild from samples in order of position leaves every level sorted,
/// so views bisect it as the count of entries below a bound.
pub proof fn lemma_rebuild_sorted(pre: TimeseriesLineMemory, post: TimeseriesLineMemory, data: Seq<Sample>)
    requires
        pre.wf(),
        rebuilds(pre.descriptor(), data),
        ingested(pre, post, data),
        positions_sorted(data),
    ensures
        forall|k: int| 0 <= k < post.levels().len() ==> sorted(#[trigger] post.levels()[k]),
{
    lemma_translated_sorted(None, data);
    assert forall|k: int| 0 <= k < post.levels().len() implies sorted(#[trigger] post.levels()[k]) by {
        lemma_levels_sorted(post.method(), post.levels(), k);
    }
}

/// Levels that meet the invariant agree up to index `k` where their level
/// 0 agrees.
proof fn lemma_levels_agree(m: DownsamplingMethod, a: Seq<Seq<Entry>>, b: Seq<Seq<Entry>>, k: int)
    requires
        levels_wf(m, a),
        levels_wf(m, b),
        a[0] == b[0],
        0 <= k < a.len(),
        k < b.len(),
    ensures
        a[k] == b[k],
    decreases k,
{
    if k > 0 {
        lemma_levels_agree(m, a, b, k - 1);
        assert(a[k] == m.reduce_all(a[k - 1]));
        assert(b[k] == m.reduce_all(b[k - 1]));
    }
}

/// Levels that meet the invariant are determined by level 0.
pub proof fn lemma_levels_determined(m: DownsamplingMethod, a: Seq<Seq<Entry>>, b: Seq<Seq<Entry>>)
    requires
        levels_wf(m, a),
        levels_wf(m, b),
        a[0] == b[0],
    ensures
        a == b,
{
    if a.len() < b.len() {
        let n = a.len() as int;
        lemma_levels_agree(m, a, b, n - 1);
        assert(b[n].len() >= 0);
        assert(b[n - 1].len() > MAX_POINTS);
    }
    if b.len() < a.len() {
        let n = b.len() as int;
        lemma_levels_agree(m, a, b, n - 1);
        assert(a[n].len() >= 0);
        assert(a[n - 1].len() > MAX_POINTS);
    }
    assert forall|k: int| 0 <= k < a.len() implies #[trigger] a[k] == b[k] by {
        lemma_levels_agree(m, a, b, k);
    }
    assert(a =~= b);
}

/// The level chosen from `i` on is one of the levels from `i` on.
pub proof fn lemma_chosen_level_range(levels: Seq<Seq<Entry>>, b: PlotBounds, i: int)
    requires
        0 <= i < levels.len(),
    ensures
        i <= chosen_level(levels, b, i) < levels.len(),
    decreases levels.len() - i,
{
    if i + 1 < levels.len() {
        lemma_chosen_level_range(levels, b, i + 1);
    }
}

/// The slice shown for `b` lies within `level`.
pub proof fn lemma_slice_range(level: Seq<Entry>, b: PlotBounds)
    ensures
        0 <= slice_begin(level, b) <= slice_end(level, b) <= level.len(),
{
    lemma_partition_bounds(level, b.min_x, false, 0, level.len() as int);
    lemma_partition_bounds(level, b.max_x, true, 0, level.len() as int);
}

/// Ingesting a sequence and then the same sequence with more samples
/// appended extends level 0 by the translated new samples: every earlier
/// entry stays as it was.
pub proof fn lemma_append_only_growth(
    pre: TimeseriesLineMemory,
    mid: TimeseriesLineMemory,
    post: TimeseriesLineMemory,
    s: Seq<Sample>,
    t: Seq<Sample>,
)
    requires
        pre.wf(),
        ingested(pre, mid, s),
        ingested(mid, post, s + t),
        t.len() > 0,
    ensures
        post.levels()[0] == mid.levels()[0] + translated(mid.origin(), t),
{
    if s.len() == 0 {
        assert(s + t =~= t);
        assert(mid.levels()[0] == mid.cache_levels@[0]@);
        assert(mid.levels()[0] =~= Seq::<Entry>::empty());
        assert(mid.levels()[0] + translated(mid.origin(), t) =~= translated(None, t));
    } else {
        assert((s + t)[0] == s[0]);
        assert((s + t).subrange(s.len() as int, (s + t).len() as int) =~= t);
    }
}

/// Ingesting the same sequence twice leaves the second ingest nothing to
/// do: levels, origin and remembered view stay as the first one left them.
pub proof fn lemma_reingest_unchanged(
    pre: TimeseriesLineMemory,
    mid: TimeseriesLineMemory,
    post: TimeseriesLineMemory,
    s: Seq<Sample>,
)
    requires
        pre.wf(),
        ingested(pre, mid, s),
        ingested(mid, post, s),
    ensures
        post.levels() == mid.levels(),
        post.origin() == mid.origin(),
        post.memo() == mid.memo(),
{
}

/// An ingest that rebuilds (the first sample changed, the sequence got
/// shorter, or the cache was cleared) leaves the levels and origin of a new
/// cache fed the same sequence, and so every view is the same.
pub proof fn lemma_rebuild_matches_fresh(
    pre: TimeseriesLineMemory,
    post: TimeseriesLineMemory,
    empty: TimeseriesLineMemory,
    rebuilt: TimeseriesLineMemory,
    data: Seq<Sample>,
)
    requires
        pre.wf(),
        rebuilds(pre.descriptor(), data),
        ingested(pre, post, data),
        fresh(empty, pre.method()),
        ingested(empty, rebuilt, data),
    ensures
        post.levels() == rebuilt.levels(),
        post.origin() == rebuilt.origin(),
        post.descriptor() == rebuilt.descriptor(),
        post.memo() == rebuilt.memo(),
        forall|b: PlotBounds| select(post.levels(), b) == select(rebuilt.levels(), b),
{
    lemma_levels_determined(pre.method(), post.levels(), rebuilt.levels());
}

/// Levels built from a level 0 that kept its earlier content keep, at
/// every level, all but the last bucket's worth of what they held.
proof fn lemma_levels_keep_prefix(m: DownsamplingMethod, a: Seq<Seq<Entry>>, b: Seq<Seq<Entry>>, k: int)
    requires
        levels_wf(m, a),
        levels_wf(m, b),
        keeps_prefix(a[0], b[0]),
        0 <= k < a.len(),
    ensures
        k < b.len(),
        keeps_prefix(a[k], b[k]),
    decreases k,
{
    if k > 0 {
        lemma_levels_keep_prefix(m, a, b, k - 1);
        assert(a[k] == m.reduce_all(a[k - 1]));
        assert(a[k - 1].len() > MAX_POINTS);
        assert(b[k - 1].len() >= a[k - 1].len());
        if b.len() == k {
            assert(b.last() == b[k - 1]);
        }
        assert(b[k] == m.reduce_all(b[k - 1]));
        m.lemma_reduce_keeps_prefix(a[k - 1], b[k - 1]);
    }
}

/// Appending samples keeps every coarser level but its last two entries:
/// only the reduction of its last, possibly partial, bucket is redone.
pub proof fn lemma_append_keeps_coarse_prefix(
    pre: TimeseriesLineMemory,
    mid: TimeseriesLineMemory,
    post: TimeseriesLineMemory,
    s: Seq<Sample>,
    t: Seq<Sample>,
)
    requires
        pre.wf(),
        ingested(pre, mid, s),
        ingested(mid, post, s + t),
        t.len() > 0,
    ensures
        post.levels().len() >= mid.levels().len(),
        forall|k: int, j: int|
            1 <= k < mid.levels().len() && 0 <= j < mid.levels()[k].len() - 2 ==> #[trigger] post.levels()[k][j]
                == mid.levels()[k][j],
{
    lemma_append_only_growth(pre, mid, post, s, t);
    let m = mid.method();
    let a = mid.levels();
    let b = post.levels();
    assert(keeps_prefix(a[0], b[0])) by {
        assert forall|j: int| 0 <= j < a[0].len() implies #[trigger] b[0][j] == a[0][j] by {}
    }
    lemma_levels_keep_prefix(m, a, b, a.len() - 1);
    assert forall|k: int, j: int|
        1 <= k < a.len() && 0 <= j < a[k].len() - 2 implies #[trigger] b[k][j] == a[k][j] by {
        lemma_levels_keep_prefix(m, a, b, k - 1);
        assert(a[k] == m.reduce_all(a[k - 1]));
        assert(b[k] == m.reduce_all(b[k - 1]));
        m.lemma_reduce_len(a[k - 1]);
        m.lemma_reduce_keeps_prefix(a[k - 1], b[k - 1]);
    }
}

/// Each level is no longer than the one below it and exists only because
/// that one holds more than `MAX_POINTS` entries; growth stops below the
/// last allowed level only at a level that fits `MAX_POINTS`.
pub proof fn lemma_levels_shrink(l: TimeseriesLineMemory)
    requires
        l.wf(),
    ensures
        1 <= l.levels().len() <= MAX_DOWNSAMPLING_STEPS + 1,
        forall|k: int|
            1 <= k < l.levels().len() ==> #[trigger] l.levels()[k].len() <= l.levels()[k - 1].len()
                && l.levels()[k - 1].len() > MAX_POINTS,
        l.levels().len() < MAX_DOWNSAMPLING_STEPS + 1 ==> l.levels().last().len() <= MAX_POINTS,
{
    let m = l.method();
    assert forall|k: int| 1 <= k < l.levels().len() implies #[trigger] l.levels()[k].len()
        <= l.levels()[k - 1].len() && l.levels()[k - 1].len() > MAX_POINTS by {
        m.lemma_reduce_len(l.levels()[k - 1]);
    }
}

/// Two queries for the same bounds with nothing in between give the same
/// points, the second one the remembered points, and leave the levels as
/// they were.
pub proof fn lemma_repeat_query(
    pre: TimeseriesLineMemory,
    mid: TimeseriesLineMemory,
    post: TimeseriesLineMemory,
    b: PlotBounds,
    r1: Seq<Entry>,
    r2: Seq<Entry>,
)
    requires
        queried(pre, mid, b, r1),
        queried(mid, post, b, r2),
    ensures
        r2 == r1,
        mid.memo() == Some((b, r2)),
        post.levels() == pre.levels(),
{
}

/// Where the shown slice of the chosen level misses the level's first (or
/// last) entry, the points begin (or end) at that entry's position, with
/// the value of the slice's own first (or last) entry.
pub proof fn lemma_edge_anchoring(l: TimeseriesLineMemory, b: PlotBounds)
    requires
        l.wf(),
    ensures
        ({
            let k = chosen_level(l.levels(), b, 0);
            let level = l.levels()[k];
            let bg = slice_begin(level, b);
            let en = slice_end(level, b);
            let r = select(l.levels(), b);
            &&& 0 <= k < l.levels().len()
            &&& 0 <= bg <= en <= level.len()
            &&& bg > 0 && bg < en ==> r[0] == (level[0].0, level[bg].1)
            &&& en < level.len() && bg < en ==> r.last() == (level.last().0, level[en - 1].1)
        }),
{
    lemma_chosen_level_range(l.levels(), b, 0);
    let k = chosen_level(l.levels(), b, 0);
    lemma_slice_range(l.levels()[k], b);
}

/// On sorted levels and bounds with `min_x <= max_x`, the shown slice of a
/// non-empty chosen level is never empty, so the anchors always apply:
/// where the slice misses the level's first (or last) entry, the points
/// begin (or end) at that entry's position with the value of the slice's
/// own first (or last) entry.
pub proof fn lemma_edge_anchoring_sorted(l: TimeseriesLineMemory, b: PlotBounds)
    requires
        l.wf(),
        forall|k: int| 0 <= k < l.levels().len() ==> sorted(#[trigger] l.levels()[k]),
        b.min_x <= b.max_x,
    ensures
        ({
            let k = chosen_level(l.levels(), b, 0);
            let level = l.levels()[k];
            let bg = slice_begin(level, b);
            let en = slice_end(level, b);
            let r = select(l.levels(), b);
            &&& level.len() > 0 ==> bg < en
            &&& bg > 0 ==> r[0] == (level[0].0, level[bg].1) && r[1] == level[bg]
            &&& en < level.len() ==> r.last() == (level.last().0, level[en - 1].1)
        }),
{
    lemma_edge_anchoring(l, b);
    let k = chosen_level(l.levels(), b, 0);
    let level = l.levels()[k];
    if level.len() > 0 {
        lemma_slice_sorted(level, b);
    }
}

impl TimeseriesLineMemory {
    /// The cache levels, finest first.
    pub closed spec fn levels(&self) -> Seq<Seq<Entry>> {
        Seq::new(self.cache_levels@.len(), |i: int| self.cache_levels@[i]@)
    }

    /// Length and first sample of the sequence of the last ingest.
    pub closed spec fn descriptor(&self) -> Option<(int, Option<Sample>)> {
        match self.cached_data {
            Some(d) => Some((d.len as int, d.first_data_point)),
            None => None,
        }
    }

    /// The position that relative positions are measured from.
    pub closed spec fn origin(&self) -> Option<i64> {
        self.x_axis_origin
    }

    /// The last view bounds and the points returned for them.
    pub closed spec fn memo(&self) -> Option<(PlotBounds, Seq<Entry>)> {
        match self.view_cache {
            Some(v) => Some((v.0, v.1@)),
            None => None,
        }
    }

    pub closed spec fn method(&self) -> DownsamplingMethod {
        self.downsampling_method
    }

    /// The invariant makes each level above 0 its parent reduced, with a
    /// level only where its parent outgrew `MAX_POINTS`.
    pub proof fn lemma_wf_levels(&self)
        requires
            self.wf(),
        ensures
            levels_wf(self.method(), self.levels()),
    {
    }

    /// The cache's invariant.
    pub closed spec fn wf(&self) -> bool {
        &&& levels_wf(self.downsampling_method, self.levels())
        &&& (self.x_axis_origin is None <==> self.cache_levels@[0]@.len() == 0)
        &&& (self.view_cache matches Some(v) ==> v.1@ == select(self.levels(), v.0))
        &&& (self.cached_data matches Some(d) && d.len == 0 ==> self.cache_levels@[0]@.len() == 0)
    }

    /// An empty cache that reduces buckets by `downsampling_method`.
    pub fn new(downsampling_method: DownsamplingMethod) -> (r: Self)
        ensures
            fresh(r, downsampling_method),
    {
        let r = TimeseriesLineMemory {
            downsampling_method,
            cached_data: None,
            cache_levels: vec![Vec::new()],
            view_cache: None,
            x_axis_origin: None,
        };
        assert(r.levels() =~= seq![Seq::<Entry>::empty()]);
        r
    }

    /// Drops every entry and level but an empty level 0, the origin, the
    /// descriptor and the view memo: the next ingest rebuilds from scratch.
    pub fn clear_caches(&mut self)
        requires
            old(self).wf(),
        ensures
            final(self).wf(),
            final(self).method() == old(self).method(),
            final(self).levels() == seq![Seq::<Entry>::empty()],
            final(self).descriptor() is None,
            final(self).origin() is None,
            final(self).memo() is None,
    {
        self.cache_levels.truncate(1);
        self.cache_levels.set(0, Vec::new());
        self.cached_data = None;
        self.view_cache = None;
        self.x_axis_origin = None;
        assert(self.levels() =~= seq![Seq::<Entry>::empty()]);
    }

    /// Appends the non-gap samples of `data[start..]` to level 0.
    fn append_samples(&mut self, data: &Vec<Sample>, start: usize)
        requires
            old(self).cache_levels@.len() >= 1,
            start <= data@.len(),
        ensures
            final(self).cache_levels@.len() == old(self).cache_levels@.len(),
            final(self).levels()[0] == old(self).levels()[0] + translated(
                old(self).x_axis_origin,
                data@.subrange(start as int, data@.len() as int),
            ),
            forall|k: int|
                1 <= k < old(self).cache_levels@.len() ==> #[trigger] final(self).levels()[k]
                    == old(self).levels()[k],
            final(self).x_axis_origin == origin_after(
                old(self).x_axis_origin,
                data@.subrange(start as int, data@.len() as int),
            ),
            final(self).downsampling_method == old(self).downsampling_method,
            final(self).cached_data == old(self).cached_data,
            final(self).view_cache == old(self).view_cache,
    {
        let ghost o = self.x_axis_origin;
        let ghost l0 = self.levels()[0];
        let mut lvl: Vec<Entry> = Vec::new();
        self.cache_levels.set_and_swap(0, &mut lvl);
        let mut i: usize = start;
        while i < data.len()
            invariant
                start <= i <= data@.len(),
                lvl@ == l0 + translated(o, data@.subrange(start as int, i as int)),
                self.x_axis_origin == origin_after(o, data@.subrange(start as int, i as int)),
                self.cache_levels@.len() == old(self).cache_levels@.len(),
                forall|k: int|
                    1 <= k < old(self).cache_levels@.len() ==> #[trigger] self.cache_levels@[k]
                        == old(self).cache_levels@[k],
                self.downsampling_method == old(self).downsampling_method,
                self.cached_data == old(self).cached_data,
                self.view_cache == old(self).view_cache,
            decreases data@.len() - i,
        {
            let ghost sub = data@.subrange(start as int, i + 1);
            proof {
                assert(sub.drop_last() =~= data@.subrange(start as int, i as int));
            }
            let (x, y) = data[i];
            if let Some(y) = y {
                let org: i64 = match self.x_axis_origin {
                    Some(org) => org,
                    None => x,
                };
                self.x_axis_origin = Some(org);
                lvl.push((x as i128 - org as i128, y));
            }
            i = i + 1;
        }
        self.cache_levels.set_and_swap(0, &mut lvl);
    }

    /// Recomputes level `i` from its parent: the entries of its last bucket
    /// are dropped, the rest kept, and the parent's buckets from there on
    /// reduced and appended.
    fn refresh_level(&mut self, i: usize, Ghost(parent_old): Ghost<Seq<Entry>>)
        requires
            1 <= i < old(self).cache_levels@.len(),
            old(self).levels()[i as int].len() == 0 || (old(self).levels()[i as int]
                == old(self).downsampling_method.reduce_all(parent_old) && keeps_prefix(
                parent_old,
                old(self).levels()[i - 1],
            )),
        ensures
            final(self).cache_levels@.len() == old(self).cache_levels@.len(),
            final(self).levels()[i as int] == final(self).downsampling_method.reduce_all(
                final(self).levels()[i - 1],
            ),
            forall|k: int|
                0 <= k < old(self).cache_levels@.len() && k != i ==> #[trigger] final(self).levels()[k]
                    == old(self).levels()[k],
            final(self).downsampling_method == old(self).downsampling_method,
            final(self).x_axis_origin == old(self).x_axis_origin,
            final(self).cached_data == old(self).cached_data,
            final(self).view_cache == old(self).view_cache,
    {
        let m = self.downsampling_method;
        let ghost prev = self.levels();
        let mut lvl: Vec<Entry> = Vec::new();
        self.cache_levels.set_and_swap(i, &mut lvl);
        let t: usize = if lvl.len() >= 2 {
            lvl.len() - 2
        } else {
            0
        };
        lvl.truncate(t);
        let c0: usize = t / 2;
        proof {
            if prev[i as int].len() != 0 {
                m.lemma_reduce_keeps_prefix(parent_old, prev[i - 1]);
                m.lemma_reduce_len(parent_old);
            }
            assert(lvl@ =~= m.reduce_all(self.levels()[i - 1]).take(2 * c0));
        }
        reduce_from(m, &self.cache_levels[i - 1], c0, &mut lvl);
        self.cache_levels.set_and_swap(i, &mut lvl);
        assert forall|k: int| 0 <= k < prev.len() && k != i implies #[trigger] self.levels()[k]
            == prev[k] by {}
    }

    /// Folds the non-gap samples of `data[start..]` into level 0, then
    /// brings each coarser level up to date, recomputing only its last
    /// bucket and what follows, and adds a level where the coarsest one
    /// has outgrown `MAX_POINTS`.
    #[verifier::rlimit(30)]
    fn extend_caches(&mut self, data: &Vec<Sample>, start: usize)
        requires
            levels_wf(old(self).downsampling_method, old(self).levels()),
            old(self).x_axis_origin is None <==> old(self).cache_levels@[0]@.len() == 0,
            start <= data@.len(),
        ensures
            levels_wf(final(self).downsampling_method, final(self).levels()),
            final(self).x_axis_origin is None <==> final(self).cache_levels@[0]@.len() == 0,
            final(self).levels()[0] == old(self).levels()[0] + translated(
                old(self).x_axis_origin,
                data@.subrange(start as int, data@.len() as int),
            ),
            final(self).x_axis_origin == origin_after(
                old(self).x_axis_origin,
                data@.subrange(start as int, data@.len() as int),
            ),
            final(self).downsampling_method == old(self).downsampling_method,
            final(self).cached_data == old(self).cached_data,
            final(self).view_cache is None,
    {
        let ghost old_levels = self.levels();
        let m = self.downsampling_method;
        self.append_samples(data, start);
        self.view_cache = None;
        proof {
            lemma_origin(old(self).x_axis_origin, data@.subrange(start as int, data@.len() as int));
            assert(self.levels()[0] == self.cache_levels@[0]@);
            assert(old_levels[0] == old(self).cache_levels@[0]@);
            assert(keeps_prefix(old_levels[0], self.levels()[0]));
        }
        let ghost l0 = self.levels()[0];
        let ghost org = self.x_axis_origin;
        let mut i: usize = 1;
        let mut stop = false;
        while i <= MAX_DOWNSAMPLING_STEPS && !stop
            invariant
                1 <= i <= MAX_DOWNSAMPLING_STEPS + 1,
                i <= self.cache_levels@.len() <= MAX_DOWNSAMPLING_STEPS + 1,
                self.cache_levels@.len() == old_levels.len() || self.cache_levels@.len() <= i,
                self.cache_levels@.len() >= old_levels.len(),
                self.downsampling_method == m,
                self.levels()[0] == l0,
                self.x_axis_origin == org,
                self.cached_data == old(self).cached_data,
                self.view_cache is None,
                levels_wf(m, old_levels),
                forall|k: int|
                    1 <= k < i ==> #[trigger] self.levels()[k] == m.reduce_all(self.levels()[k - 1])
                        && self.levels()[k - 1].len() > MAX_POINTS,
                forall|k: int|
                    i <= k < self.cache_levels@.len() ==> #[trigger] self.levels()[k]
                        == old_levels[k],
                i - 1 < old_levels.len() ==> keeps_prefix(old_levels[i - 1], self.levels()[i - 1]),
                stop ==> self.cache_levels@.len() == i && self.levels()[i - 1].len()
                    <= MAX_POINTS,
            decreases MAX_DOWNSAMPLING_STEPS + 1 - i, if stop { 0int } else { 1int },
        {
            let ghost before = self.levels();
            if i >= self.cache_levels.len() {
                if self.cache_levels[i - 1].len() > MAX_POINTS {
                    self.cache_levels.push(Vec::new());
                } else {
                    stop = true;
                    assert(self.levels() =~= before);
                }
            }
            assert forall|k: int| 0 <= k < before.len() implies #[trigger] self.levels()[k]
                == before[k] by {}
            if !stop {
                let ghost existed = i < old_levels.len();
                let ghost head = self.levels();
                let ghost parent_old = if existed {
                    old_levels[i - 1]
                } else {
                    Seq::empty()
                };
                proof {
                    if existed {
                        assert(old_levels[i as int] == m.reduce_all(old_levels[i - 1]));
                        assert(head[i as int] == old_levels[i as int]);
                    }
                }
                self.refresh_level(i, Ghost(parent_old));
                proof {
                    if existed {
                        m.lemma_reduce_keeps_prefix(parent_old, self.levels()[i - 1]);
                        assert(self.levels()[i - 1].len() >= old_levels[i - 1].len());
                    }
                    assert(self.levels()[i - 1].len() > MAX_POINTS);
                    assert forall|k: int| 1 <= k < i + 1 implies #[trigger] self.levels()[k]
                        == m.reduce_all(self.levels()[k - 1]) && self.levels()[k - 1].len()
                        > MAX_POINTS by {
                        if k < i {
                            assert(head[k] == m.reduce_all(head[k - 1]));
                        }
                    }
                }
                i = i + 1;
            }
        }
    }

    /// Ingests the whole current sequence of the line. Only its length and
    /// first sample are compared with the last ingest: a new cache, a
    /// shorter sequence or a changed first sample rebuilds from scratch; a
    /// longer one folds in only the samples past the old length; one of the
    /// same length is taken as already reflected.
    pub fn update_cache(&mut self, data: &Vec<Sample>)
        requires
            old(self).wf(),
        ensures
            ingested(*old(self), *final(self), data@),
    {
        let len = data.len();
        let first: Option<Sample> = if len > 0 {
            Some(data[0])
        } else {
            None
        };
        match self.cached_data {
            Some(d) => {
                if len < d.len || first != d.first_data_point {
                    self.clear_caches();
                    self.extend_caches(data, 0);
                    assert(data@.subrange(0, data@.len() as int) =~= data@);
                } else if len > d.len {
                    self.extend_caches(data, d.len);
                }
            },
            None => {
                self.clear_caches();
                self.extend_caches(data, 0);
                assert(data@.subrange(0, data@.len() as int) =~= data@);
            },
        }
        self.cached_data = Some(CacheDescriptor { len, first_data_point: first });
    }

    /// Position of the last entry of level 0, if there is one.
    pub fn end(&self) -> (r: Option<i128>)
        requires
            self.wf(),
        ensures
            r == line_end(*self),
    {
        let l0 = &self.cache_levels[0];
        if l0.len() > 0 {
            Some(l0[l0.len() - 1].0)
        } else {
            None
        }
    }

    /// The points to draw for view `plot_bounds`: the slice of the finest
    /// level that shows fewer than `MAX_POINTS` entries (or of the coarsest
    /// level), anchored at the level's ends. The same bounds as last time
    /// give back the remembered points.
    pub fn plot(&mut self, plot_bounds: PlotBounds) -> (r: Vec<Entry>)
        requires
            old(self).wf(),
        ensures
            queried(*old(self), *final(self), plot_bounds, r@),
    {
        if let Some(v) = &self.view_cache {
            if v.0 == plot_bounds {
                return copy_entries(&v.1);
            }
        }
        let ghost levels = self.levels();
        let n = self.cache_levels.len();
        let mut k: usize = 0;
        let (b0, e0) = slice_bounds(&self.cache_levels[0], plot_bounds);
        let mut bg = b0;
        let mut en = e0;
        while k + 1 < n && en - bg >= MAX_POINTS
            invariant
                levels == self.levels(),
                n == levels.len(),
                k < n,
                bg == slice_begin(levels[k as int], plot_bounds),
                en == slice_end(levels[k as int], plot_bounds),
                bg <= en <= levels[k as int].len(),
                chosen_level(levels, plot_bounds, k as int) == chosen_level(levels, plot_bounds, 0),
            decreases n - k,
        {
            k = k + 1;
            let (b1, e1) = slice_bounds(&self.cache_levels[k], plot_bounds);
            bg = b1;
            en = e1;
        }
        let out = anchored_points(&self.cache_levels[k], bg, en);
        self.view_cache = Some((plot_bounds, copy_entries(&out)));
        out
    }

    /// Number of levels.
    pub fn num_levels(&self) -> (r: usize)
        ensures
            r == self.levels().len(),
    {
        self.cache_levels.len()
    }

    /// A copy of level `k`; empty where there is no such level.
    pub fn level(&self, k: usize) -> (r: Vec<Entry>)
        ensures
            k < self.levels().len() ==> r@ == self.levels()[k as int],
            k >= self.levels().len() ==> r@.len() == 0,
    {
        if k < self.cache_levels.len() {
            copy_entries(&self.cache_levels[k])
        } else {
            Vec::new()
        }
    }

    /// Where the samples that an ingest of a sequence of `len` samples
    /// starting with `first` needs begin; none where nothing is needed.
    pub fn ingest_start(&self, len: usize, first: Option<Sample>) -> (r: Option<usize>)
        ensures
            r matches Some(k) ==> start_of(self.descriptor(), len as int, first) == Some(k as int),
            r is None ==> start_of(self.descriptor(), len as int, first) is None,
    {
        match self.cached_data {
            Some(d) => {
                if len < d.len || first != d.first_data_point {
                    Some(0)
                } else if len > d.len {
                    Some(d.len)
                } else {
                    None
                }
            },
            None => Some(0),
        }
    }

    /// Ingests a sequence of `len` samples starting with `first`, given
    /// only its samples from `ingest_start(len, first)` on: the result is
    /// that of `update_cache` on every such sequence.
    pub fn update_cache_tail(&mut self, len: usize, first: Option<Sample>, tail: &Vec<Sample>)
        requires
            old(self).wf(),
            tail_fits(start_of(old(self).descriptor(), len as int, first), len as int, first, tail@),
        ensures
            final(self).wf(),
            final(self).method() == old(self).method(),
            final(self).descriptor() == Some((len as int, first)),
            forall|data: Seq<Sample>|
                extends_tail(data, start_of(old(self).descriptor(), len as int, first), len as int, first, tail@)
                    ==> #[trigger] ingested(*old(self), *final(self), data),
    {
        let ghost pre = *self;
        let ghost start = start_of(self.descriptor(), len as int, first);
        match self.ingest_start(len, first) {
            Some(k) => {
                if k == 0 {
                    self.clear_caches();
                }
                self.extend_caches(tail, 0);
            },
            None => {},
        }
        self.cached_data = Some(CacheDescriptor { len, first_data_point: first });
        proof {
            assert(tail@.subrange(0, tail@.len() as int) =~= tail@);
            assert forall|data: Seq<Sample>|
                extends_tail(data, start, len as int, first, tail@) implies #[trigger] ingested(pre, *self, data) by {
                if start is Some {
                    assert(data.subrange(start->0, len as int) == tail@);
                    if start->0 == 0 {
                        assert(data.subrange(0, len as int) =~= data);
                    }
                }
            }
        }
    }
}

} // verus!
