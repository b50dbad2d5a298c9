//! The top-level model: one trained index per group key, with lookup,
//! training and report generation.

use vstd::prelude::*;
use crate::Error;
use crate::source::{src_name, src_wf, Content, ContentV, IndexName, Source, SourceV};
use crate::index::{
    anomalies_of, ci_wf, fresh_index, make_index, train_upto, Index, IndexAlgo, IndexV,
};
use crate::report::{LogReport, LogReportV, Report};

verus! {

/// Abstract value of a `Model`.
pub struct ModelV {
    pub created_at_ms: u64,
    pub baselines: Seq<ContentV>,
    pub indexes: Seq<(Seq<char>, IndexV)>,
}

/// The archive of trained indexes searched for anomalies: a creation time,
/// the original baselines kept for provenance, and one index per group key.
#[derive(Debug, Clone, PartialEq, Eq)]
pub struct Model {
    pub created_at_ms: u64,
    pub baselines: Vec<Content>,
    pub indexes: Vec<(IndexName, Index)>,
}

impl View for Model {
    type V = ModelV;

    open spec fn view(&self) -> ModelV {
        ModelV {
            created_at_ms: self.created_at_ms,
            baselines: self.baselines.deep_view(),
            indexes: self.indexes.deep_view(),
        }
    }
}

impl DeepView for Model {
    type V = ModelV;

    open spec fn deep_view(&self) -> ModelV {
        self.view()
    }
}

/// Model invariant: group keys are pairwise distinct and every stored chunk
/// index is well-formed.
pub open spec fn model_wf(m: ModelV) -> bool {
    &&& forall|i: int, j: int|
        0 <= i < j < m.indexes.len() ==> (#[trigger] m.indexes[i]).0 != (#[trigger] m.indexes[j]).0
    &&& forall|i: int| 0 <= i < m.indexes.len() ==> ci_wf((#[trigger] m.indexes[i]).1.index)
}

// ---------------------------------------------------------------------------
// Lookup
// ---------------------------------------------------------------------------

/// Looks a key up in the index list. A single-entry list matches any key,
/// so an ad hoc comparison of two arbitrarily named files still finds the
/// one trained index; with zero or several entries and no exact match,
/// nothing is found.
pub fn lookup_or_single<'a>(hm: &'a Vec<(IndexName, Index)>, k: &IndexName) -> (r: Option<
    &'a Index,
>)
    ensures
        match r {
            Some(v) => (exists|i: int|
                0 <= i < hm@.len() && (#[trigger] hm@[i]).0@ == k@ && *v == hm@[i].1) || (hm@.len()
                == 1 && *v == hm@[0].1),
            None => hm@.len() != 1 && forall|i: int|
                0 <= i < hm@.len() ==> (#[trigger] hm@[i]).0@ != k@,
        },
        (exists|i: int| 0 <= i < hm@.len() && (#[trigger] hm@[i]).0@ == k@) ==> r is Some,
        hm@.len() == 1 ==> r is Some,
{
    let mut i: usize = 0;
    while i < hm.len()
        invariant
            i <= hm@.len(),
            forall|j: int| 0 <= j < i ==> (#[trigger] hm@[j]).0@ != k@,
        decreases hm@.len() - i,
    {
        if hm[i].0.0 == k.0 {
            return Some(&hm[i].1);
        }
        i += 1;
    }
    if hm.len() == 1 {
        Some(&hm[0].1)
    } else {
        None
    }
}

/// The index a source resolves to: its exact key match when one exists,
/// else the single stored index when there is exactly one, else nothing.
pub open spec fn get_index_spec(m: ModelV, s: SourceV) -> Option<IndexV> {
    if exists|i: int| 0 <= i < m.indexes.len() && (#[trigger] m.indexes[i]).0 == src_name(s) {
        let i = choose|i: int|
            0 <= i < m.indexes.len() && (#[trigger] m.indexes[i]).0 == src_name(s);
        Some(m.indexes[i].1)
    } else if m.indexes.len() == 1 {
        Some(m.indexes[0].1)
    } else {
        None
    }
}

// ---------------------------------------------------------------------------
// Reporting, as a fold over the target sources
// ---------------------------------------------------------------------------

/// The report built from the first `i` target sources, in order: a missing
/// index or a failed open aborts with that error; a source contributes one
/// entry exactly when it yielded at least one anomaly.
pub open spec fn report_upto(
    m: ModelV,
    sources: Seq<SourceV>,
    opened: Seq<Result<Vec<String>, Error>>,
    times: Seq<u64>,
    i: int,
) -> Result<Seq<LogReportV>, Error>
    decreases i,
{
    if i <= 0 {
        Ok(Seq::empty())
    } else {
        match report_upto(m, sources, opened, times, i - 1) {
            Err(e) => Err(e),
            Ok(prev) => match get_index_spec(m, sources[i - 1]) {
                None => Err(Error::MissingIndex),
                Some(ix) => match opened[i - 1] {
                    Err(e) => Err(e),
                    Ok(lines) => {
                        let ans = anomalies_of(ix.index, lines.deep_view());
                        if ans.len() == 0 {
                            Ok(prev)
                        } else {
                            Ok(
                                prev.push(
                                    LogReportV { test_time_ms: times[i - 1], anomalies: ans },
                                ),
                            )
                        }
                    },
                },
            },
        }
    }
}

proof fn lemma_report_err_persists(
    m: ModelV,
    sources: Seq<SourceV>,
    opened: Seq<Result<Vec<String>, Error>>,
    times: Seq<u64>,
    j: int,
    n: int,
)
    requires
        0 <= j <= n,
        report_upto(m, sources, opened, times, j) is Err,
    ensures
        report_upto(m, sources, opened, times, n) == report_upto(m, sources, opened, times, j),
    decreases n - j,
{
    if j < n {
        lemma_report_err_persists(m, sources, opened, times, j, n - 1);
    }
}

/// Law: a successful report never contains an entry for a source with zero
/// anomalies — every entry carries at least one anomaly context.
pub proof fn lemma_report_entries_nonempty(
    m: ModelV,
    sources: Seq<SourceV>,
    opened: Seq<Result<Vec<String>, Error>>,
    times: Seq<u64>,
    i: int,
)
    ensures
        report_upto(m, sources, opened, times, i) matches Ok(ts) ==> forall|j: int|
            0 <= j < ts.len() ==> (#[trigger] ts[j]).anomalies.len() > 0,
    decreases i,
{
    if i > 0 {
        lemma_report_entries_nonempty(m, sources, opened, times, i - 1);
    }
}

impl Error {
    /// Copies an error, preserving its value.
    pub fn duplicate(&self) -> (r: Error)
        ensures
            r == *self,
    {
        match self {
            Error::MalformedUrl => Error::MalformedUrl,
            Error::EmptyBaselines => Error::EmptyBaselines,
            Error::BaselinesNotProvided => Error::BaselinesNotProvided,
            Error::EmptySources => Error::EmptySources,
            Error::MissingIndex => Error::MissingIndex,
            Error::SourceOpen(s) => Error::SourceOpen(s.clone()),
            Error::CorruptModel => Error::CorruptModel,
        }
    }
}

impl Model {
    /// Trains one index per group from the groups' opened sources, in group
    /// order. The caller supplies, aligned with `groups`: the raw lines of
    /// each group's sources, and each group's measured training time.
    pub fn train(
        created_at_ms: u64,
        baselines: Vec<Content>,
        groups: Vec<(IndexName, Vec<Source>)>,
        lines: &Vec<Vec<Vec<String>>>,
        times_ms: &Vec<u64>,
        algo: IndexAlgo,
    ) -> (r: Model)
        requires
            lines@.len() == groups@.len(),
            times_ms@.len() == groups@.len(),
            forall|i: int, j: int|
                0 <= i < j < groups@.len() ==> (#[trigger] groups@[i]).0@ != (
                #[trigger] groups@[j]).0@,
        ensures
            r@.created_at_ms == created_at_ms,
            r@.baselines == baselines.deep_view(),
            r@.indexes.len() == groups@.len(),
            forall|i: int|
                0 <= i < groups@.len() ==> (#[trigger] r@.indexes[i]).0 == groups@[i].0@
                    && r@.indexes[i].1.train_time_ms == times_ms@[i] && r@.indexes[i].1.index
                    == train_upto(
                    fresh_index(algo),
                    lines.deep_view()[i],
                    lines.deep_view()[i].len() as int,
                ),
            model_wf(r@),
    {
        let mut indexes: Vec<(IndexName, Index)> = Vec::new();
        let mut gi: usize = 0;
        while gi < groups.len()
            invariant
                gi <= groups@.len(),
                lines@.len() == groups@.len(),
                times_ms@.len() == groups@.len(),
                indexes@.len() == gi,
                forall|i: int|
                    0 <= i < gi ==> (#[trigger] indexes.deep_view()[i]).0 == groups@[i].0@
                        && indexes.deep_view()[i].1.train_time_ms == times_ms@[i]
                        && indexes.deep_view()[i].1.index == train_upto(
                        fresh_index(algo),
                        lines.deep_view()[i],
                        lines.deep_view()[i].len() as int,
                    ) && ci_wf(indexes.deep_view()[i].1.index),
            decreases groups@.len() - gi,
        {
            let name = groups[gi].0.duplicate();
            let ix = Index::train(&lines[gi], make_index(algo), times_ms[gi]);
            proof {
                assert(lines@[gi as int].deep_view() == lines.deep_view()[gi as int]);
            }
            let ghost pre = indexes.deep_view();
            indexes.push((name, ix));
            proof {
                assert(indexes.deep_view() =~= pre.push(
                    (indexes@[gi as int].0@, indexes@[gi as int].1@),
                ));
            }
            gi += 1;
        }
        let r = Model { created_at_ms, baselines, indexes };
        proof {
            assert forall|i: int, j: int|
                0 <= i < j < r@.indexes.len() implies (#[trigger] r@.indexes[i]).0 != (
            #[trigger] r@.indexes[j]).0 by {
                assert(r@.indexes[i].0 == groups@[i].0@);
                assert(r@.indexes[j].0 == groups@[j].0@);
            }
        }
        r
    }

    /// Resolves the index for a source: its group key's index, or the
    /// model's single index as a fallback.
    pub fn get_index<'a>(&'a self, source: &Source) -> (r: Option<&'a Index>)
        requires
            model_wf(self@),
            src_wf(source@),
        ensures
            match r {
                Some(v) => get_index_spec(self@, source@) == Some(v@),
                None => get_index_spec(self@, source@) is None,
            },
            r matches Some(v) ==> ci_wf(v@.index),
    {
        let index_name = IndexName::from_source(source);
        proof {
            assert(forall|i: int|
                0 <= i < self.indexes@.len() ==> (#[trigger] self@.indexes[i]).0
                    == self.indexes@[i].0@ && self@.indexes[i].1 == self.indexes@[i].1@);
        }
        let r = lookup_or_single(&self.indexes, &index_name);
        proof {
            let m = self@;
            let key = src_name(source@);
            assert(index_name@ == key);
            match r {
                Some(v) => {
                    if exists|i: int|
                        0 <= i < self.indexes@.len() && (#[trigger] self.indexes@[i]).0@
                            == index_name@ && *v == self.indexes@[i].1 {
                        let ei = choose|i: int|
                            0 <= i < self.indexes@.len() && (#[trigger] self.indexes@[i]).0@
                                == index_name@ && *v == self.indexes@[i].1;
                        assert(m.indexes[ei].0 == key);
                        let si = choose|i: int|
                            0 <= i < m.indexes.len() && (#[trigger] m.indexes[i]).0 == key;
                        assert(0 <= si < m.indexes.len() && m.indexes[si].0 == key);
                        assert(ei == si);
                        assert(v@ == m.indexes[si].1);
                    } else {
                        assert(self.indexes@.len() == 1 && *v == self.indexes@[0].1);
                        if exists|i: int|
                            0 <= i < m.indexes.len() && (#[trigger] m.indexes[i]).0 == key {
                            let si = choose|i: int|
                                0 <= i < m.indexes.len() && (#[trigger] m.indexes[i]).0 == key;
                            assert(si == 0);
                            assert(v@ == m.indexes[si].1);
                        } else {
                            assert(v@ == m.indexes[0].1);
                        }
                    }
                },
                None => {
                    assert(m.indexes.len() != 1);
                    assert forall|i: int|
                        0 <= i < m.indexes.len() implies (#[trigger] m.indexes[i]).0 != key by {
                        assert(self.indexes@[i].0@ != key);
                    }
                },
            }
        }
        r
    }

    /// Builds the report for the target's sources, in order: the caller
    /// supplies, aligned with `sources`, the outcome of opening each one
    /// and its measured inspection time. A missing index or a failed open
    /// is a typed error; sources with zero anomalies are omitted.
    pub fn report(
        &self,
        created_at_ms: u64,
        sources: &Vec<Source>,
        opened: &Vec<Result<Vec<String>, Error>>,
        times_ms: &Vec<u64>,
    ) -> (r: Result<Report, Error>)
        requires
            model_wf(self@),
            opened@.len() == sources@.len(),
            times_ms@.len() == sources@.len(),
            forall|i: int| 0 <= i < sources@.len() ==> src_wf(#[trigger] sources@[i]@),
        ensures
            match r {
                Ok(rep) => rep@.created_at_ms == created_at_ms && report_upto(
                    self@,
                    sources.deep_view(),
                    opened@,
                    times_ms@,
                    sources@.len() as int,
                ) == Ok::<Seq<LogReportV>, Error>(rep@.targets),
                Err(e) => report_upto(
                    self@,
                    sources.deep_view(),
                    opened@,
                    times_ms@,
                    sources@.len() as int,
                ) == Err::<Seq<LogReportV>, Error>(e),
            },
    {
        let ghost m = self@;
        let ghost sv = sources.deep_view();
        let ghost ov = opened@;
        let ghost tv = times_ms@;
        let ghost n = sources@.len() as int;
        let mut targets: Vec<LogReport> = Vec::new();
        let mut i: usize = 0;
        proof {
            assert(targets.deep_view() =~= Seq::<LogReportV>::empty());
        }
        while i < sources.len()
            invariant
                i <= sources@.len(),
                model_wf(m),
                m == self@,
                sv == sources.deep_view(),
                ov == opened@,
                tv == times_ms@,
                n == sources@.len() as int,
                sv.len() == n,
                ov.len() == n,
                tv.len() == n,
                forall|j: int| 0 <= j < n ==> src_wf(#[trigger] sources@[j]@),
                report_upto(m, sv, ov, tv, i as int) == Ok::<Seq<LogReportV>, Error>(
                    targets.deep_view(),
                ),
            decreases sources@.len() - i,
        {
            proof {
                assert(sources@[i as int]@ == sv[i as int]);
            }
            let index = match self.get_index(&sources[i]) {
                Some(ix) => ix,
                None => {
                    proof {
                        lemma_report_err_persists(m, sv, ov, tv, i + 1, n);
                    }
                    return Err(Error::MissingIndex);
                },
            };
            match &opened[i] {
                Err(e) => {
                    let err = e.duplicate();
                    proof {
                        lemma_report_err_persists(m, sv, ov, tv, i + 1, n);
                    }
                    return Err(err);
                },
                Ok(lines) => {
                    let anomalies = index.inspect(lines);
                    if anomalies.len() > 0 {
                        let ghost pre = targets.deep_view();
                        let test_time_ms = times_ms[i];
                        targets.push(LogReport { test_time_ms, anomalies });
                        proof {
                            assert(targets.deep_view() =~= pre.push(
                                targets@[targets@.len() - 1]@,
                            ));
                        }
                    }
                },
            }
            i += 1;
        }
        proof {
            assert(i as int == n);
        }
        Ok(Report { created_at_ms, targets })
    }
}

} // verus!
