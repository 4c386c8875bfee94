//! The registry of lines of one plot.
use vstd::prelude::*;

use crate::downsample::{DownsamplingMethod, Entry, Sample};
use crate::line::{
    extends_tail, first_of, levels_wf, fresh, ingested, line_end, origin_after, queried, start_of, tail_fits,
    translated, PlotBounds, TimeseriesLineMemory,
};

verus! {

/// Index of the last id equal to `key`, or -1.
pub open spec fn index_of(ids: Seq<Seq<char>>, key: Seq<char>) -> int
    decreases ids.len(),
{
    if ids.len() == 0 {
        -1
    } else if ids.last() == key {
        ids.len() - 1
    } else {
        index_of(ids.drop_last(), key)
    }
}

/// The larger of two optional ends.
pub open spec fn max_end(a: Option<i128>, b: Option<i128>) -> Option<i128> {
    match (a, b) {
        (Some(x), Some(y)) => Some(if x >= y { x } else { y }),
        (Some(x), None) => Some(x),
        (None, _) => b,
    }
}

/// The last position over all lines that hold data.
pub open spec fn lines_end(lines: Seq<TimeseriesLineMemory>) -> Option<i128>
    decreases lines.len(),
{
    if lines.len() == 0 {
        None
    } else {
        max_end(lines_end(lines.drop_last()), line_end(lines.last()))
    }
}

/// What a new line holds after its first ingest of `data`.
pub open spec fn built(post: TimeseriesLineMemory, m: DownsamplingMethod, data: Seq<Sample>) -> bool {
    &&& post.wf()
    &&& levels_wf(m, post.levels())
    &&& post.method() == m
    &&& post.descriptor() == Some((data.len() as int, first_of(data)))
    &&& post.levels()[0] == translated(None, data)
    &&& post.origin() == origin_after(None, data)
    &&& post.memo() is None
}

/// `index_of` finds `key` exactly where some id equals it.
pub proof fn lemma_index_of(ids: Seq<Seq<char>>, key: Seq<char>)
    ensures
        -1 <= index_of(ids, key) < ids.len(),
        index_of(ids, key) >= 0 ==> ids[index_of(ids, key)] == key,
        index_of(ids, key) == -1 ==> forall|i: int| 0 <= i < ids.len() ==> ids[i] != key,
    decreases ids.len(),
{
    if ids.len() > 0 {
        lemma_index_of(ids.drop_last(), key);
        if ids.last() != key && index_of(ids, key) == -1 {
            assert forall|i: int| 0 <= i < ids.len() implies ids[i] != key by {
                if i < ids.len() - 1 {
                    assert(ids.drop_last()[i] == ids[i]);
                }
            }
        }
    }
}

/// Caches of all lines of one plot, keyed by line id. Lines are created on
/// their first update and live as long as the registry.
#[derive(Debug)]
pub struct TimeseriesPlotMemory {
    line_ids: Vec<String>,
    lines: Vec<TimeseriesLineMemory>,
    downsampling_method: DownsamplingMethod,
}

impl TimeseriesPlotMemory {
    /// The ids of the lines, in order of creation.
    pub closed spec fn ids(&self) -> Seq<Seq<char>> {
        Seq::new(self.line_ids@.len(), |i: int| self.line_ids@[i]@)
    }

    /// The caches of the lines, in the order of `ids`.
    pub closed spec fn lines(&self) -> Seq<TimeseriesLineMemory> {
        self.lines@
    }

    pub closed spec fn method(&self) -> DownsamplingMethod {
        self.downsampling_method
    }

    /// Where the samples that an update of line `key` with a sequence of
    /// `len` samples starting with `first` needs begin: from 0 for a new
    /// line.
    pub open spec fn start_for(&self, key: Seq<char>, len: int, first: Option<Sample>) -> Option<int> {
        let k = index_of(self.ids(), key);
        if k >= 0 {
            start_of(self.lines()[k].descriptor(), len, first)
        } else {
            Some(0)
        }
    }

    /// The registry's invariant: one well-formed cache per id, ids unique.
    pub open spec fn wf(&self) -> bool {
        &&& self.ids().len() == self.lines().len()
        &&& forall|i: int, j: int|
            0 <= i < j < self.ids().len() ==> self.ids()[i] != self.ids()[j]
        &&& forall|i: int|
            0 <= i < self.lines().len() ==> #[trigger] self.lines()[i].wf()
                && self.lines()[i].method() == self.method()
    }

    /// An empty registry whose lines reduce by min and max.
    pub fn new() -> (r: Self)
        ensures
            r.wf(),
            r.ids().len() == 0,
            r.method() == DownsamplingMethod::MinMax,
    {
        let r = TimeseriesPlotMemory {
            line_ids: Vec::new(),
            lines: Vec::new(),
            downsampling_method: DownsamplingMethod::MinMax,
        };
        assert(r.ids() =~= Seq::<Seq<char>>::empty());
        r
    }

    /// Position of `line_id` among the lines, if it is there.
    fn find(&self, line_id: &String) -> (r: Option<usize>)
        ensures
            r matches Some(k) ==> k == index_of(self.ids(), line_id@),
            r is None ==> index_of(self.ids(), line_id@) == -1,
    {
        let mut i: usize = self.line_ids.len();
        assert(self.ids().take(i as int) =~= self.ids());
        while i > 0
            invariant
                i <= self.ids().len(),
                index_of(self.ids(), line_id@) == index_of(self.ids().take(i as int), line_id@),
            decreases i,
        {
            proof {
                assert(self.ids().take(i as int).drop_last() =~= self.ids().take(i - 1));
            }
            if self.line_ids[i - 1] == *line_id {
                return Some(i - 1);
            }
            i = i - 1;
        }
        None
    }

    /// Ingests the current sequence of line `line_id`, creating the line
    /// first where it is new.
    pub fn update_cache(&mut self, line_id: &String, data: &Vec<Sample>)
        requires
            old(self).wf(),
        ensures
            final(self).wf(),
            final(self).method() == old(self).method(),
            index_of(old(self).ids(), line_id@) >= 0 ==> {
                let k = index_of(old(self).ids(), line_id@);
                &&& final(self).ids() == old(self).ids()
                &&& final(self).lines().len() == old(self).lines().len()
                &&& ingested(old(self).lines()[k], final(self).lines()[k], data@)
                &&& forall|j: int|
                    0 <= j < old(self).lines().len() && j != k ==> #[trigger] final(self).lines()[j]
                        == old(self).lines()[j]
            },
            index_of(old(self).ids(), line_id@) == -1 ==> {
                let n = old(self).lines().len();
                &&& final(self).ids() == old(self).ids().push(line_id@)
                &&& final(self).lines().len() == n + 1
                &&& built(final(self).lines()[n as int], old(self).method(), data@)
                &&& forall|j: int|
                    0 <= j < n ==> #[trigger] final(self).lines()[j] == old(self).lines()[j]
            },
    {
        let m = self.downsampling_method;
        proof {
            lemma_index_of(self.ids(), line_id@);
        }
        match self.find(line_id) {
            Some(k) => {
                let mut l = TimeseriesLineMemory::new(m);
                proof {
                    assert(self.lines()[k as int].wf());
                }
                self.lines.set_and_swap(k, &mut l);
                l.update_cache(data);
                self.lines.set_and_swap(k, &mut l);
                assert(self.ids() == old(self).ids());
                assert forall|i: int| 0 <= i < self.lines().len() implies #[trigger] self.lines()[i].wf()
                    && self.lines()[i].method() == self.method() by {
                    if i != k {
                        assert(old(self).lines()[i].wf());
                    }
                }
            },
            None => {
                let mut l = TimeseriesLineMemory::new(m);
                l.update_cache(data);
                self.line_ids.push(line_id.clone());
                self.lines.push(l);
                assert(self.ids() =~= old(self).ids().push(line_id@));
                assert forall|i: int| 0 <= i < self.lines().len() implies #[trigger] self.lines()[i].wf()
                    && self.lines()[i].method() == self.method() by {
                    if i < old(self).lines().len() {
                        assert(old(self).lines()[i].wf());
                    }
                }
            },
        }
    }

    /// The points to draw for line `line_id` in view `plot_bounds`; none
    /// for an unknown line.
    pub fn plot(&mut self, line_id: &String, plot_bounds: PlotBounds) -> (r: Vec<Entry>)
        requires
            old(self).wf(),
        ensures
            final(self).wf(),
            final(self).method() == old(self).method(),
            final(self).ids() == old(self).ids(),
            final(self).lines().len() == old(self).lines().len(),
            index_of(old(self).ids(), line_id@) >= 0 ==> {
                let k = index_of(old(self).ids(), line_id@);
                &&& queried(old(self).lines()[k], final(self).lines()[k], plot_bounds, r@)
                &&& forall|j: int|
                    0 <= j < old(self).lines().len() && j != k ==> #[trigger] final(self).lines()[j]
                        == old(self).lines()[j]
            },
            index_of(old(self).ids(), line_id@) == -1 ==> {
                &&& r@.len() == 0
                &&& final(self).lines() == old(self).lines()
            },
    {
        let m = self.downsampling_method;
        proof {
            lemma_index_of(self.ids(), line_id@);
        }
        match self.find(line_id) {
            Some(k) => {
                let mut l = TimeseriesLineMemory::new(m);
                proof {
                    assert(self.lines()[k as int].wf());
                }
                self.lines.set_and_swap(k, &mut l);
                let r = l.plot(plot_bounds);
                self.lines.set_and_swap(k, &mut l);
                assert(self.ids() == old(self).ids());
                assert forall|i: int| 0 <= i < self.lines().len() implies #[trigger] self.lines()[i].wf()
                    && self.lines()[i].method() == self.method() by {
                    if i != k {
                        assert(old(self).lines()[i].wf());
                    }
                }
                assert(self.wf());
                r
            },
            None => {
                assert(self.wf());
                Vec::new()
            },
        }
    }

    /// The largest last position over the lines that hold data, if any.
    pub fn end(&self) -> (r: Option<i128>)
        requires
            self.wf(),
        ensures
            r == lines_end(self.lines()),
    {
        let mut acc: Option<i128> = None;
        let mut i: usize = 0;
        while i < self.lines.len()
            invariant
                self.wf(),
                i <= self.lines().len(),
                acc == lines_end(self.lines().take(i as int)),
            decreases self.lines().len() - i,
        {
            proof {
                assert(self.lines().take(i + 1).drop_last() =~= self.lines().take(i as int));
                assert(self.lines()[i as int].wf());
            }
            let e = self.lines[i].end();
            acc = match (acc, e) {
                (Some(x), Some(y)) => Some(if x >= y { x } else { y }),
                (Some(x), None) => Some(x),
                (None, _) => e,
            };
            i = i + 1;
        }
        proof {
            assert(self.lines().take(i as int) =~= self.lines());
        }
        acc
    }

    /// Clears the caches of every line, so that each rebuilds on its next
    /// update. The remedy for edits that change neither the length nor the
    /// first sample of a line.
    pub fn clear_caches(&mut self)
        requires
            old(self).wf(),
        ensures
            final(self).wf(),
            final(self).method() == old(self).method(),
            final(self).ids() == old(self).ids(),
            final(self).lines().len() == old(self).lines().len(),
            forall|j: int|
                0 <= j < final(self).lines().len() ==> fresh(
                    #[trigger] final(self).lines()[j],
                    final(self).method(),
                ),
    {
        let m = self.downsampling_method;
        let mut i: usize = 0;
        while i < self.lines.len()
            invariant
                self.downsampling_method == m,
                self.ids() == old(self).ids(),
                self.lines().len() == old(self).lines().len(),
                i <= self.lines().len(),
                forall|j: int| 0 <= j < i ==> fresh(#[trigger] self.lines()[j], m),
                forall|j: int|
                    i <= j < self.lines().len() ==> #[trigger] self.lines()[j] == old(
                        self,
                    ).lines()[j],
                old(self).wf(),
                m == old(self).method(),
            decreases self.lines().len() - i,
        {
            let mut l = TimeseriesLineMemory::new(m);
            self.lines.set_and_swap(i, &mut l);
            proof {
                assert(old(self).lines()[i as int].wf());
            }
            l.clear_caches();
            self.lines.set_and_swap(i, &mut l);
            i = i + 1;
        }
    }

    /// The cache of line `line_id`, if the line is known.
    pub fn line(&self, line_id: &String) -> (r: Option<&TimeseriesLineMemory>)
        requires
            self.wf(),
        ensures
            index_of(self.ids(), line_id@) >= 0 ==> (r matches Some(l) && *l == self.lines()[index_of(
                self.ids(),
                line_id@,
            )]),
            index_of(self.ids(), line_id@) == -1 ==> r is None,
    {
        proof {
            lemma_index_of(self.ids(), line_id@);
        }
        match self.find(line_id) {
            Some(k) => Some(&self.lines[k]),
            None => None,
        }
    }

    /// Where the samples that an update of line `line_id` with a sequence
    /// of `len` samples starting with `first` needs begin; none where the
    /// line is taken as up to date.
    pub fn ingest_start(&self, line_id: &String, len: usize, first: Option<Sample>) -> (r: Option<usize>)
        requires
            self.wf(),
        ensures
            r matches Some(k) ==> self.start_for(line_id@, len as int, first) == Some(k as int),
            r is None ==> self.start_for(line_id@, len as int, first) is None,
    {
        proof {
            lemma_index_of(self.ids(), line_id@);
        }
        match self.find(line_id) {
            Some(k) => self.lines[k].ingest_start(len, first),
            None => Some(0),
        }
    }

    /// Updates line `line_id` with a sequence of `len` samples starting with
    /// `first`, given only its samples from `ingest_start` on: the result is
    /// that of `update_cache` on every such sequence.
    pub fn update_cache_tail(&mut self, line_id: &String, len: usize, first: Option<Sample>, tail: &Vec<Sample>)
        requires
            old(self).wf(),
            tail_fits(old(self).start_for(line_id@, len as int, first), len as int, first, tail@),
        ensures
            final(self).wf(),
            final(self).method() == old(self).method(),
            index_of(old(self).ids(), line_id@) >= 0 ==> {
                let k = index_of(old(self).ids(), line_id@);
                &&& final(self).ids() == old(self).ids()
                &&& final(self).lines().len() == old(self).lines().len()
                &&& forall|data: Seq<Sample>|
                    extends_tail(data, old(self).start_for(line_id@, len as int, first), len as int, first, tail@)
                        ==> #[trigger] ingested(old(self).lines()[k], final(self).lines()[k], data)
                &&& forall|j: int|
                    0 <= j < old(self).lines().len() && j != k ==> #[trigger] final(self).lines()[j]
                        == old(self).lines()[j]
            },
            index_of(old(self).ids(), line_id@) == -1 ==> {
                let n = old(self).lines().len();
                &&& final(self).ids() == old(self).ids().push(line_id@)
                &&& final(self).lines().len() == n + 1
                &&& forall|data: Seq<Sample>|
                    extends_tail(data, Some(0), len as int, first, tail@)
                        ==> #[trigger] built(final(self).lines()[n as int], old(self).method(), data)
                &&& forall|j: int|
                    0 <= j < n ==> #[trigger] final(self).lines()[j] == old(self).lines()[j]
            },
    {
        let m = self.downsampling_method;
        proof {
            lemma_index_of(self.ids(), line_id@);
        }
        match self.find(line_id) {
            Some(k) => {
                let mut l = TimeseriesLineMemory::new(m);
                proof {
                    assert(self.lines()[k as int].wf());
                }
                self.lines.set_and_swap(k, &mut l);
                l.update_cache_tail(len, first, tail);
                self.lines.set_and_swap(k, &mut l);
                assert(self.ids() == old(self).ids());
                assert forall|i: int| 0 <= i < self.lines().len() implies #[trigger] self.lines()[i].wf()
                    && self.lines()[i].method() == self.method() by {
                    assert(old(self).lines()[i].wf());
                }
            },
            None => {
                let mut l = TimeseriesLineMemory::new(m);
                let ghost pre = l;
                l.update_cache_tail(len, first, tail);
                self.line_ids.push(line_id.clone());
                self.lines.push(l);
                assert(self.ids() =~= old(self).ids().push(line_id@));
                assert forall|data: Seq<Sample>|
                    extends_tail(data, Some(0), len as int, first, tail@) implies #[trigger] built(
                    self.lines()[old(self).lines().len() as int],
                    m,
                    data,
                ) by {
                    assert(ingested(pre, l, data));
                }
                assert forall|i: int| 0 <= i < self.lines().len() implies #[trigger] self.lines()[i].wf()
                    && self.lines()[i].method() == self.method() by {
                    if i < old(self).lines().len() {
                        assert(old(self).lines()[i].wf());
                    }
                }
            },
        }
    }
}

} // verus!
