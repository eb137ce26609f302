//! The computational side of gathering observations from source adapters:
//! request-URL building, per-adapter outcome classification, and the current
//! date.
//!
//! The fetching itself (HTTP, threads, logging) lives outside the library;
//! it reports one `AdapterReport` per adapter, and `collect_observations`
//! turns those reports into the observation list that the reconciliation
//! takes, keeping successes and absorbing failures.
use crate::calendar::{date_in_range, Date};
use crate::earnings::{distinct_sources, views, EarningsDateTime, ObsView, SourcedEarningsTime};
use chrono::Datelike;
use vstd::prelude::*;

verus! {

/// The byte `{`.
pub const OPEN_BRACE: u8 = 123;

/// The byte `}`.
pub const CLOSE_BRACE: u8 = 125;

/// What one adapter's fetch-and-extract task ended in.
#[derive(Debug)]
pub enum AdapterOutcome {
    /// The adapter found an announcement date.
    Found(EarningsDateTime),
    /// The adapter answered but had no date to report: a normal outcome,
    /// not a failure.
    NoData,
    /// The fetch itself failed: a connection error or a non-success status.
    TransportFailure(String),
    /// The page was fetched but no date could be extracted from it.
    ExtractionFailure(String),
}

/// The mathematical content of an `AdapterOutcome`.
pub ghost enum OutcomeView {
    Found(crate::earnings::DtView),
    NoData,
    TransportFailure(Seq<char>),
    ExtractionFailure(Seq<char>),
}

impl View for AdapterOutcome {
    type V = OutcomeView;

    open spec fn view(&self) -> OutcomeView {
        match self {
            AdapterOutcome::Found(dt) => OutcomeView::Found(dt@),
            AdapterOutcome::NoData => OutcomeView::NoData,
            AdapterOutcome::TransportFailure(m) => OutcomeView::TransportFailure(m@),
            AdapterOutcome::ExtractionFailure(m) => OutcomeView::ExtractionFailure(m@),
        }
    }
}

/// One adapter's outcome, tagged with the adapter's source name.
#[derive(Debug)]
pub struct AdapterReport {
    pub source: String,
    pub outcome: AdapterOutcome,
}

/// The mathematical content of an `AdapterReport`.
pub ghost struct ReportView {
    pub source: Seq<char>,
    pub outcome: OutcomeView,
}

impl View for AdapterReport {
    type V = ReportView;

    open spec fn view(&self) -> ReportView {
        ReportView { source: self.source@, outcome: self.outcome@ }
    }
}

/// The views of a list of adapter reports.
pub open spec fn report_views(s: Seq<AdapterReport>) -> Seq<ReportView> {
    s.map_values(|r: AdapterReport| r@)
}

/// No two reports carry the same source name.
pub open spec fn distinct_report_sources(s: Seq<ReportView>) -> bool {
    forall|i: int, j: int| 0 <= i < j < s.len() ==> s[i].source != s[j].source
}

/// The observations of the reports whose outcome found a date, in order,
/// each tagged with its report's source name.
pub open spec fn successes(s: Seq<ReportView>) -> Seq<ObsView>
    decreases s.len(),
{
    if s.len() == 0 {
        Seq::empty()
    } else {
        let rest = successes(s.drop_last());
        match s.last().outcome {
            OutcomeView::Found(dt) => rest.push(ObsView { dt: dt, source: s.last().source }),
            _ => rest,
        }
    }
}

/// Keep the observations of the successful reports and absorb the rest: the
/// failure-isolation step of the orchestrator.
pub fn collect_observations(reports: &Vec<AdapterReport>) -> (r: Vec<SourcedEarningsTime>)
    ensures
        views(r@) == successes(report_views(reports@)),
        distinct_report_sources(report_views(reports@)) ==> r@.len() <= reports@.len()
            && distinct_sources(views(r@)),
{
    let ghost rv = report_views(reports@);
    let mut out: Vec<SourcedEarningsTime> = Vec::new();
    let mut i: usize = 0;
    while i < reports.len()
        invariant
            0 <= i <= reports@.len(),
            rv == report_views(reports@),
            views(out@) == successes(rv.take(i as int)),
        decreases reports@.len() - i,
    {
        proof {
            assert(rv.take(i + 1).drop_last() =~= rv.take(i as int));
            assert(rv.take(i + 1).last() == reports@[i as int]@);
        }
        match &reports[i].outcome {
            AdapterOutcome::Found(dt) => {
                let ghost out0 = views(out@);
                out.push(SourcedEarningsTime { datetime: *dt, source: reports[i].source.clone() });
                proof {
                    assert(views(out@) =~= out0.push(
                        ObsView { dt: dt@, source: reports@[i as int].source@ },
                    ));
                }
            },
            _ => {},
        }
        i = i + 1;
    }
    proof {
        assert(rv.take(reports@.len() as int) =~= rv);
        if distinct_report_sources(rv) {
            lemma_gather_bounds(rv);
        }
    }
    out
}

/// A gathering run returns at most one observation per adapter: from reports
/// with pairwise distinct source names, the kept observations are no more
/// numerous than the reports, carry pairwise distinct source names, and each
/// carries the name of one of the reports.
pub proof fn lemma_gather_bounds(s: Seq<ReportView>)
    requires
        distinct_report_sources(s),
    ensures
        successes(s).len() <= s.len(),
        distinct_sources(successes(s)),
        forall|k: int|
            0 <= k < successes(s).len() ==> exists|i: int|
                0 <= i < s.len() && (#[trigger] successes(s)[k]).source == s[i].source,
    decreases s.len(),
{
    if s.len() > 0 {
        let t = s.drop_last();
        assert(distinct_report_sources(t)) by {
            assert forall|i: int, j: int| 0 <= i < j < t.len() implies t[i].source
                != t[j].source by {
                assert(t[i] == s[i]);
                assert(t[j] == s[j]);
            }
        }
        lemma_gather_bounds(t);
        let rest = successes(t);
        match s.last().outcome {
            OutcomeView::Found(dt) => {
                let x = ObsView { dt: dt, source: s.last().source };
                let cur = successes(s);
                assert(cur == rest.push(x));
                assert(s[s.len() - 1] == s.last());
                assert forall|k1: int, k2: int| 0 <= k1 < k2 < cur.len() implies cur[k1].source
                    != cur[k2].source by {
                    if k2 < rest.len() {
                        assert(cur[k1] == rest[k1]);
                        assert(cur[k2] == rest[k2]);
                    } else {
                        assert(cur[k2] == x);
                        assert(cur[k1] == rest[k1]);
                        let i = choose|i: int|
                            0 <= i < t.len() && (#[trigger] rest[k1]).source == t[i].source;
                        assert(s[i] == t[i]);
                        assert(s[i].source != s[s.len() - 1].source);
                    }
                }
                assert forall|k: int| 0 <= k < cur.len() implies exists|i: int|
                    0 <= i < s.len() && (#[trigger] cur[k]).source == s[i].source by {
                    if k < rest.len() {
                        assert(cur[k] == rest[k]);
                        let i = choose|i: int|
                            0 <= i < t.len() && (#[trigger] rest[k]).source == t[i].source;
                        assert(s[i] == t[i]);
                        assert(cur[k].source == s[i].source);
                    } else {
                        assert(cur[k].source == s[s.len() - 1].source);
                    }
                }
            },
            _ => {
                assert forall|k: int| 0 <= k < successes(s).len() implies exists|i: int|
                    0 <= i < s.len() && (#[trigger] successes(s)[k]).source == s[i].source by {
                    let i = choose|i: int|
                        0 <= i < t.len() && (#[trigger] rest[k]).source == t[i].source;
                    assert(s[i] == t[i]);
                    assert(successes(s)[k].source == s[i].source);
                }
            },
        }
    }
}

/// The URL template with every `{}` placeholder replaced by the symbol.
pub open spec fn spec_fill_template(t: Seq<u8>, sym: Seq<u8>) -> Seq<u8>
    decreases t.len(),
{
    if t.len() >= 2 && t[0] == OPEN_BRACE && t[1] == CLOSE_BRACE {
        sym + spec_fill_template(t.skip(2), sym)
    } else if t.len() == 0 {
        t
    } else {
        seq![t[0]] + spec_fill_template(t.skip(1), sym)
    }
}

/// Build a request URL: the adapter's template with every `{}` placeholder
/// replaced by the ticker symbol.
pub fn build_url(template: &Vec<u8>, symbol: &Vec<u8>) -> (r: Vec<u8>)
    ensures
        r@ == spec_fill_template(template@, symbol@),
{
    let mut out: Vec<u8> = Vec::new();
    let mut i: usize = 0;
    proof {
        assert(template@.skip(0) =~= template@);
        assert(out@ + spec_fill_template(template@, symbol@) =~= spec_fill_template(
            template@,
            symbol@,
        ));
    }
    while i < template.len()
        invariant
            0 <= i <= template@.len(),
            spec_fill_template(template@, symbol@) == out@ + spec_fill_template(
                template@.skip(i as int),
                symbol@,
            ),
        decreases template@.len() - i,
    {
        let ghost rem = template@.skip(i as int);
        proof {
            assert(rem[0] == template@[i as int]);
        }
        if i + 1 < template.len() && template[i] == OPEN_BRACE && template[i + 1] == CLOSE_BRACE {
            proof {
                assert(rem[1] == template@[i + 1]);
                assert(rem.skip(2) =~= template@.skip(i + 2));
            }
            let mut j: usize = 0;
            let ghost out0 = out@;
            while j < symbol.len()
                invariant
                    0 <= j <= symbol@.len(),
                    out@ == out0 + symbol@.take(j as int),
                decreases symbol@.len() - j,
            {
                proof {
                    assert(symbol@.take(j + 1).drop_last() =~= symbol@.take(j as int));
                    assert(symbol@.take(j + 1).last() == symbol@[j as int]);
                    assert(out0 + symbol@.take(j + 1) =~= (out0 + symbol@.take(j as int)).push(
                        symbol@[j as int],
                    ));
                }
                out.push(symbol[j]);
                j = j + 1;
            }
            proof {
                assert(symbol@.take(symbol@.len() as int) =~= symbol@);
                assert(out@ + spec_fill_template(template@.skip(i + 2), symbol@) =~= out0 + (
                symbol@ + spec_fill_template(template@.skip(i + 2), symbol@)));
            }
            i = i + 2;
        } else {
            let ghost out0 = out@;
            out.push(template[i]);
            proof {
                assert(rem.skip(1) =~= template@.skip(i + 1));
                assert(out@ + spec_fill_template(template@.skip(i + 1), symbol@) =~= out0 + (seq![
                    template@[i as int],
                ] + spec_fill_template(template@.skip(i + 1), symbol@)));
            }
            i = i + 1;
        }
    }
    proof {
        assert(template@.skip(template@.len() as int) =~= Seq::<u8>::empty());
        assert(out@ + Seq::<u8>::empty() =~= out@);
    }
    out
}

/// Relies on chrono's `Local::now`, `DateTime::date_naive` and
/// `Datelike::num_days_from_ce`: the current local calendar date, counted in
/// days from 0001-01-01 of the proleptic Gregorian calendar (that day being
/// day 1). Nothing is promised of the value: it depends on the clock.
#[verifier::external_body]
fn current_day_number() -> (r: i64) {
    chrono::Local::now().date_naive().num_days_from_ce() as i64
}

/// Turn a day count, as the clock wrapper reports it, into a `Date`:
/// accepted exactly when it lies in the range the calendar arithmetic takes,
/// and then carried over unchanged.
pub fn date_from_day_count(n: i64) -> (r: Option<Date>)
    ensures
        r is Some <==> 16 <= n <= 96000000,
        r matches Some(d) ==> d.day == n as u64,
        r matches Some(d) ==> date_in_range(d),
{
    if n >= 16 && n <= 96000000 {
        Some(Date { day: n as u64 })
    } else {
        None
    }
}

/// The current local date as a `Date`, when the clock yields a day count the
/// calendar arithmetic can take; `None` on a wildly out-of-range clock. What
/// the clock yields cannot be promised; `date_from_day_count` says exactly
/// what becomes of any yielded value.
pub fn today() -> (r: Option<Date>)
    ensures
        r matches Some(d) ==> date_in_range(d),
{
    let n: i64 = current_day_number();
    date_from_day_count(n)
}

} // verus!
