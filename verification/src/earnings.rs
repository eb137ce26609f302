//! Earnings-announcement observations and the reconciliation of disagreeing
//! sources into one best guess.
//!
//! Each observation names a date and a market-session timing. Observations are
//! grouped by the trading session they imply; an observation whose timing is
//! unknown also votes for the two neighbouring sessions. The session with the
//! most votes on or after the current date wins, and the sources are split
//! into concurrences, close disagreements and far disagreements.
use crate::calendar::{date_in_range, next_day, prev_day, Date, DAY_MARGIN};
use vstd::prelude::*;

verus! {

/// When in the trading day an announcement happens, as far as a source says.
#[derive(Debug, Clone, Copy, PartialEq, Eq, Structural)]
pub enum AnnounceTime {
    BeforeMarket,
    AfterMarket,
    Unknown,
}

impl AnnounceTime {
    /// The conventional short code: "BMO" before market open, "AMC" after
    /// market close, empty when unknown.
    pub fn code(&self) -> (r: String)
        ensures
            *self is BeforeMarket ==> r@ == "BMO"@,
            *self is AfterMarket ==> r@ == "AMC"@,
            *self is Unknown ==> r@ == Seq::<char>::empty(),
    {
        match *self {
            AnnounceTime::BeforeMarket => "BMO".to_owned(),
            AnnounceTime::AfterMarket => "AMC".to_owned(),
            AnnounceTime::Unknown => String::new(),
        }
    }
}

/// One source's raw claim: an announcement date plus its session timing.
#[derive(Debug, Clone, Copy)]
pub struct EarningsDateTime {
    pub date: Date,
    pub time: AnnounceTime,
}

/// The mathematical content of an `EarningsDateTime`: its day count and
/// timing.
pub ghost struct DtView {
    pub day: int,
    pub time: AnnounceTime,
}

impl View for EarningsDateTime {
    type V = DtView;

    open spec fn view(&self) -> DtView {
        DtView { day: self.date.day as int, time: self.time }
    }
}

/// The trading session an observation announces results for: a
/// before-market-open announcement belongs to the previous session, any other
/// to the session of its own date.
pub open spec fn session_day(dt: DtView) -> int {
    match dt.time {
        AnnounceTime::BeforeMarket => prev_day(dt.day),
        _ => dt.day,
    }
}

/// Whether the observation's timing is unknown, so that its true session
/// could also be a neighbouring trading day.
pub open spec fn is_fuzzy(dt: DtView) -> bool {
    dt.time is Unknown
}

/// Whether an observation votes for the session `day`: always for its own
/// session, and, when its timing is unknown, also for the next and previous
/// trading days.
pub open spec fn registers_at(dt: DtView, day: int) -> bool {
    ||| day == session_day(dt)
    ||| (is_fuzzy(dt) && (day == next_day(session_day(dt)) || day == prev_day(session_day(dt))))
}

impl EarningsDateTime {
    /// The last trading session before the announcement, with a flag that is
    /// set when the timing is unknown and the session therefore uncertain.
    pub fn last_session(&self) -> (r: (Date, bool))
        requires
            self.date.day >= 3,
        ensures
            r.0@ == session_day(self@),
            r.1 == is_fuzzy(self@),
    {
        match self.time {
            AnnounceTime::BeforeMarket => (self.date.prev_trading_day(), false),
            AnnounceTime::AfterMarket => (self.date, false),
            AnnounceTime::Unknown => (self.date, true),
        }
    }
}

/// An observation together with the name of the source that made it.
#[derive(Debug)]
pub struct SourcedEarningsTime {
    pub datetime: EarningsDateTime,
    pub source: String,
}

/// The mathematical content of a `SourcedEarningsTime`.
pub ghost struct ObsView {
    pub dt: DtView,
    pub source: Seq<char>,
}

impl View for SourcedEarningsTime {
    type V = ObsView;

    open spec fn view(&self) -> ObsView {
        ObsView { dt: self.datetime@, source: self.source@ }
    }
}

impl Clone for SourcedEarningsTime {
    fn clone(&self) -> (r: Self)
        ensures
            r == *self,
    {
        SourcedEarningsTime { datetime: self.datetime, source: self.source.clone() }
    }
}

/// The views of a list of sourced observations.
pub open spec fn views(s: Seq<SourcedEarningsTime>) -> Seq<ObsView> {
    s.map_values(|o: SourcedEarningsTime| o@)
}

/// How many observations in `s` vote for the session `day`.
pub open spec fn vote_count(s: Seq<ObsView>, day: int) -> int
    decreases s.len(),
{
    if s.len() == 0 {
        0
    } else {
        vote_count(s.drop_last(), day) + if registers_at(s.last().dt, day) {
            1int
        } else {
            0int
        }
    }
}

/// Whether `day` can be chosen as the best session: it has at least one vote
/// and does not lie before the current date.
pub open spec fn eligible(s: Seq<ObsView>, today: int, day: int) -> bool {
    today <= day && vote_count(s, day) > 0
}

/// Whether `day` is the session the reconciliation selects: eligible, with
/// the most votes, and earliest among the days tied for the most votes.
pub open spec fn is_best_session(s: Seq<ObsView>, today: int, day: int) -> bool {
    &&& eligible(s, today, day)
    &&& forall|d: int|
        eligible(s, today, d) ==> (vote_count(s, d) < vote_count(s, day) || (vote_count(s, d)
            == vote_count(s, day) && day <= d))
}

/// The observations of `s` that vote for the session `day`, in order.
pub open spec fn voters_for(s: Seq<ObsView>, day: int) -> Seq<ObsView>
    decreases s.len(),
{
    if s.len() == 0 {
        Seq::empty()
    } else {
        let rest = voters_for(s.drop_last(), day);
        if registers_at(s.last().dt, day) {
            rest.push(s.last())
        } else {
            rest
        }
    }
}

/// Whether some observation in `s` carries the source name `src`.
pub open spec fn has_source(s: Seq<ObsView>, src: Seq<char>) -> bool {
    exists|i: int| 0 <= i < s.len() && s[i].source == src
}

/// The set of source names occurring in `s`.
pub open spec fn src_set(s: Seq<ObsView>) -> Set<Seq<char>> {
    Set::new(|t: Seq<char>| has_source(s, t))
}

/// `cands` with every observation dropped whose source is already in `used`
/// or has occurred earlier in `cands`: the first occurrence of a source wins.
pub open spec fn dedup_by_source(cands: Seq<ObsView>, used: Set<Seq<char>>) -> Seq<ObsView>
    decreases cands.len(),
{
    if cands.len() == 0 {
        Seq::empty()
    } else {
        let h = cands.first();
        if used.contains(h.source) {
            dedup_by_source(cands.drop_first(), used)
        } else {
            seq![h] + dedup_by_source(cands.drop_first(), used.insert(h.source))
        }
    }
}

/// No two observations in `s` carry the same source name.
pub open spec fn distinct_sources(s: Seq<ObsView>) -> bool {
    forall|i: int, j: int| 0 <= i < j < s.len() ==> s[i].source != s[j].source
}

/// The concurrence bucket: every observation that votes for the selected
/// session `best`, in input order.
pub open spec fn conc_of(s: Seq<ObsView>, best: int) -> Seq<ObsView> {
    voters_for(s, best)
}

/// The close-disagreement candidates: observations voting for the trading day
/// before `best`, then those voting for the trading day after it.
pub open spec fn close_cands(s: Seq<ObsView>, best: int) -> Seq<ObsView> {
    voters_for(s, prev_day(best)) + voters_for(s, next_day(best))
}

/// The close-disagreement bucket: candidate observations one trading day away
/// from `best`, deduplicated by source, with concurring sources excluded.
pub open spec fn close_of(s: Seq<ObsView>, best: int) -> Seq<ObsView> {
    dedup_by_source(close_cands(s, best), src_set(conc_of(s, best)))
}

/// Whether `day` is the selected session or one trading day away from it.
pub open spec fn in_triple(day: int, best: int) -> bool {
    day == best || day == prev_day(best) || day == next_day(best)
}

/// Whether the observation votes for some session farther than one trading
/// day from `best`.
pub open spec fn far_reg(dt: DtView, best: int) -> bool {
    ||| !in_triple(session_day(dt), best)
    ||| (is_fuzzy(dt) && (!in_triple(next_day(session_day(dt)), best) || !in_triple(
        prev_day(session_day(dt)),
        best,
    )))
}

/// The observations of `s` that vote for some session farther than one
/// trading day from `best`, in order.
pub open spec fn far_cands(s: Seq<ObsView>, best: int) -> Seq<ObsView>
    decreases s.len(),
{
    if s.len() == 0 {
        Seq::empty()
    } else {
        let rest = far_cands(s.drop_last(), best);
        if far_reg(s.last().dt, best) {
            rest.push(s.last())
        } else {
            rest
        }
    }
}

/// The far-disagreement bucket: observations voting anywhere farther away,
/// deduplicated by source, with concurring and closely disagreeing sources
/// excluded.
pub open spec fn far_of(s: Seq<ObsView>, best: int) -> Seq<ObsView> {
    dedup_by_source(
        far_cands(s, best),
        src_set(conc_of(s, best)).union(src_set(close_of(s, best))),
    )
}

/// Every observation's date keeps far enough from the ends of the day-count
/// range for the session arithmetic.
pub open spec fn dates_in_range(s: Seq<SourcedEarningsTime>) -> bool {
    forall|i: int| 0 <= i < s.len() ==> date_in_range(#[trigger] s[i].datetime.date)
}

/// Whether the observation votes for the session `day`.
fn registers(o: &EarningsDateTime, day: u64) -> (b: bool)
    requires
        date_in_range(o.date),
    ensures
        b == registers_at(o@, day as int),
{
    let (s, f) = o.last_session();
    if s.day == day {
        true
    } else if f {
        let n = s.next_trading_day();
        let p = s.prev_trading_day();
        n.day == day || p.day == day
    } else {
        false
    }
}

/// How many observations in `dates` vote for the session `day`.
fn count_votes(dates: &Vec<SourcedEarningsTime>, day: u64) -> (c: usize)
    requires
        dates_in_range(dates@),
    ensures
        c == vote_count(views(dates@), day as int),
{
    let ghost v = views(dates@);
    let mut c: usize = 0;
    let mut i: usize = 0;
    while i < dates.len()
        invariant
            0 <= i <= dates@.len(),
            c <= i,
            dates_in_range(dates@),
            v == views(dates@),
            c == vote_count(v.take(i as int), day as int),
        decreases dates@.len() - i,
    {
        proof {
            assert(v.take(i + 1).drop_last() =~= v.take(i as int));
            assert(v.take(i + 1).last() == dates@[i as int]@);
        }
        if registers(&dates[i].datetime, day) {
            c = c + 1;
        }
        i = i + 1;
    }
    proof {
        assert(v.take(dates@.len() as int) =~= v);
    }
    c
}

/// The result of a reconciliation: the selected session and the sources
/// sorted into agreement buckets, pairwise disjoint by source.
#[derive(Debug)]
pub struct EarningsGuess {
    pub last_session: Date,
    pub concurrences: Vec<SourcedEarningsTime>,
    pub close_disagreements: Vec<SourcedEarningsTime>,
    pub far_disagreements: Vec<SourcedEarningsTime>,
}

/// Why a reconciliation can fail.
#[derive(Debug, Clone, Copy, PartialEq, Eq, Structural)]
pub enum ReconciliationError {
    /// No observed session lies on or after the current date.
    NoUpcomingSession,
}

/// Whether `day` occurs in the candidate-day list `c`.
pub open spec fn cand_has(c: Seq<u64>, day: int) -> bool {
    exists|k: int| 0 <= k < c.len() && c[k] as int == day
}

proof fn lemma_cand_has_push(c: Seq<u64>, x: u64, day: int)
    requires
        cand_has(c, day),
    ensures
        cand_has(c.push(x), day),
{
    let k = choose|k: int| 0 <= k < c.len() && c[k] as int == day;
    assert(c.push(x)[k] as int == day);
}

proof fn lemma_vote_pos_witness(s: Seq<ObsView>, day: int)
    requires
        vote_count(s, day) > 0,
    ensures
        exists|j: int| 0 <= j < s.len() && registers_at((#[trigger] s[j]).dt, day),
    decreases s.len(),
{
    if registers_at(s.last().dt, day) {
        assert(s[s.len() - 1] == s.last());
    } else {
        lemma_vote_pos_witness(s.drop_last(), day);
        let j = choose|j: int|
            0 <= j < s.drop_last().len() && registers_at((#[trigger] s.drop_last()[j]).dt, day);
        assert(s[j] == s.drop_last()[j]);
    }
}

proof fn lemma_has_source_cons(h: ObsView, t: Seq<ObsView>, src: Seq<char>)
    ensures
        has_source(seq![h] + t, src) <==> (h.source == src || has_source(t, src)),
{
    let c = seq![h] + t;
    assert(c[0] == h);
    if has_source(c, src) {
        let i = choose|i: int| 0 <= i < c.len() && c[i].source == src;
        if i != 0 {
            assert(c[i] == t[i - 1]);
        }
    }
    if h.source == src {
        assert(c[0].source == src);
    }
    if has_source(t, src) {
        let i = choose|i: int| 0 <= i < t.len() && t[i].source == src;
        assert(c[i + 1] == t[i]);
    }
}

/// Appending one candidate to a deduplication keeps the result unchanged when
/// its source was already taken, and appends it otherwise.
proof fn lemma_dedup_snoc(c: Seq<ObsView>, x: ObsView, u: Set<Seq<char>>)
    ensures
        dedup_by_source(c.push(x), u) == if u.contains(x.source) || has_source(
            dedup_by_source(c, u),
            x.source,
        ) {
            dedup_by_source(c, u)
        } else {
            dedup_by_source(c, u).push(x)
        },
    decreases c.len(),
{
    if c.len() == 0 {
        assert(c.push(x).first() == x);
        assert(c.push(x).drop_first() =~= Seq::<ObsView>::empty());
        assert(dedup_by_source(Seq::<ObsView>::empty(), u) == Seq::<ObsView>::empty());
        assert(dedup_by_source(Seq::<ObsView>::empty(), u.insert(x.source)) == Seq::<
            ObsView,
        >::empty());
        assert(dedup_by_source(c, u) =~= Seq::<ObsView>::empty());
        if !u.contains(x.source) {
            assert(seq![x] + Seq::<ObsView>::empty() =~= Seq::<ObsView>::empty().push(x));
        }
    } else {
        let h = c.first();
        assert(c.push(x).first() == h);
        assert(c.push(x).drop_first() =~= c.drop_first().push(x));
        if u.contains(h.source) {
            lemma_dedup_snoc(c.drop_first(), x, u);
        } else {
            let u2 = u.insert(h.source);
            let d2 = dedup_by_source(c.drop_first(), u2);
            lemma_dedup_snoc(c.drop_first(), x, u2);
            lemma_has_source_cons(h, d2, x.source);
            assert(dedup_by_source(c, u) == seq![h] + d2);
            if u2.contains(x.source) || has_source(d2, x.source) {
                assert(u.contains(x.source) || has_source(dedup_by_source(c, u), x.source));
            } else {
                assert(seq![h] + d2.push(x) =~= (seq![h] + d2).push(x));
                assert(!(u.contains(x.source) || has_source(dedup_by_source(c, u), x.source)));
            }
        }
    }
}

/// Whether some observation in `v` carries the source name `src`.
fn contains_source(v: &Vec<SourcedEarningsTime>, src: &String) -> (b: bool)
    ensures
        b == has_source(views(v@), src@),
{
    let ghost w = views(v@);
    let mut i: usize = 0;
    while i < v.len()
        invariant
            0 <= i <= v@.len(),
            w == views(v@),
            forall|j: int| 0 <= j < i ==> (#[trigger] w[j]).source != src@,
        decreases v@.len() - i,
    {
        if v[i].source == *src {
            proof {
                assert(w[i as int].source == src@);
            }
            return true;
        }
        i = i + 1;
    }
    false
}

/// Whether the observation votes for some session outside the selected
/// session and its two neighbouring trading days.
fn is_far(o: &EarningsDateTime, best: u64, pd: u64, nd: u64) -> (r: bool)
    requires
        date_in_range(o.date),
        pd as int == prev_day(best as int),
        nd as int == next_day(best as int),
    ensures
        r == far_reg(o@, best as int),
{
    let (s, f) = o.last_session();
    if s.day != best && s.day != pd && s.day != nd {
        true
    } else if f {
        let n = s.next_trading_day();
        let p = s.prev_trading_day();
        (n.day != best && n.day != pd && n.day != nd) || (p.day != best && p.day != pd && p.day
            != nd)
    } else {
        false
    }
}

proof fn lemma_push_contains(s: Seq<ObsView>, y: ObsView, x: ObsView)
    ensures
        s.push(y).contains(x) <==> (s.contains(x) || x == y),
{
    if s.push(y).contains(x) {
        let i = choose|i: int| 0 <= i < s.push(y).len() && s.push(y)[i] == x;
        if i < s.len() {
            assert(s[i] == x);
        }
    }
    if s.contains(x) {
        let i = choose|i: int| 0 <= i < s.len() && s[i] == x;
        assert(s.push(y)[i] == x);
    }
    assert(s.push(y)[s.len() as int] == y);
}

proof fn lemma_drop_last_split(s: Seq<ObsView>, x: ObsView)
    requires
        s.len() > 0,
    ensures
        s.contains(x) <==> (s.drop_last().contains(x) || x == s.last()),
{
    if s.contains(x) {
        let i = choose|i: int| 0 <= i < s.len() && s[i] == x;
        if i < s.len() - 1 {
            assert(s.drop_last()[i] == x);
        }
    }
    if s.drop_last().contains(x) {
        let i = choose|i: int| 0 <= i < s.drop_last().len() && s.drop_last()[i] == x;
        assert(s[i] == x);
    }
    assert(s[s.len() - 1] == s.last());
}

proof fn lemma_voters_contains(s: Seq<ObsView>, day: int, x: ObsView)
    ensures
        voters_for(s, day).contains(x) <==> (s.contains(x) && registers_at(x.dt, day)),
    decreases s.len(),
{
    if s.len() > 0 {
        lemma_voters_contains(s.drop_last(), day, x);
        if registers_at(s.last().dt, day) {
            lemma_push_contains(voters_for(s.drop_last(), day), s.last(), x);
        }
        lemma_drop_last_split(s, x);
    }
}

proof fn lemma_far_cands_contains(s: Seq<ObsView>, best: int, x: ObsView)
    ensures
        far_cands(s, best).contains(x) <==> (s.contains(x) && far_reg(x.dt, best)),
    decreases s.len(),
{
    if s.len() > 0 {
        lemma_far_cands_contains(s.drop_last(), best, x);
        if far_reg(s.last().dt, best) {
            lemma_push_contains(far_cands(s.drop_last(), best), s.last(), x);
        }
        lemma_drop_last_split(s, x);
    }
}

proof fn lemma_concat_contains(a: Seq<ObsView>, b: Seq<ObsView>, x: ObsView)
    ensures
        (a + b).contains(x) <==> (a.contains(x) || b.contains(x)),
{
    if (a + b).contains(x) {
        let i = choose|i: int| 0 <= i < (a + b).len() && (a + b)[i] == x;
        if i < a.len() {
            assert(a[i] == x);
        } else {
            assert(b[i - a.len()] == x);
        }
    }
    if a.contains(x) {
        let i = choose|i: int| 0 <= i < a.len() && a[i] == x;
        assert((a + b)[i] == x);
    }
    if b.contains(x) {
        let i = choose|i: int| 0 <= i < b.len() && b[i] == x;
        assert((a + b)[a.len() + i] == x);
    }
}

proof fn lemma_drop_first_contains(c: Seq<ObsView>, x: ObsView)
    requires
        c.len() > 0,
    ensures
        c.contains(x) <==> (x == c.first() || c.drop_first().contains(x)),
{
    if c.contains(x) {
        let i = choose|i: int| 0 <= i < c.len() && c[i] == x;
        if i > 0 {
            assert(c.drop_first()[i - 1] == x);
        }
    }
    if c.drop_first().contains(x) {
        let i = choose|i: int| 0 <= i < c.drop_first().len() && c.drop_first()[i] == x;
        assert(c[i + 1] == x);
    }
    assert(c[0] == c.first());
}

/// Deduplication keeps exactly the sources that are new: a source name occurs
/// in the result exactly when it occurs among the candidates and is not
/// excluded.
proof fn lemma_dedup_has_source(c: Seq<ObsView>, u: Set<Seq<char>>, src: Seq<char>)
    ensures
        has_source(dedup_by_source(c, u), src) <==> (has_source(c, src) && !u.contains(src)),
    decreases c.len(),
{
    if c.len() == 0 {
        assert(!has_source(c, src));
        assert(!has_source(dedup_by_source(c, u), src));
    } else {
        let h = c.first();
        assert(c =~= seq![h] + c.drop_first());
        lemma_has_source_cons(h, c.drop_first(), src);
        if u.contains(h.source) {
            lemma_dedup_has_source(c.drop_first(), u, src);
        } else {
            let u2 = u.insert(h.source);
            lemma_dedup_has_source(c.drop_first(), u2, src);
            lemma_has_source_cons(h, dedup_by_source(c.drop_first(), u2), src);
        }
    }
}

/// Membership in a deduplication, for candidate lists in which a source name
/// determines the observation: exactly the candidates whose source is not
/// excluded remain.
proof fn lemma_dedup_contains(c: Seq<ObsView>, u: Set<Seq<char>>, x: ObsView)
    requires
        forall|y: ObsView, z: ObsView|
            c.contains(y) && c.contains(z) && (#[trigger] y.source) == (#[trigger] z.source)
                ==> y == z,
    ensures
        dedup_by_source(c, u).contains(x) <==> (c.contains(x) && !u.contains(x.source)),
    decreases c.len(),
{
    if c.len() == 0 {
        assert(!c.contains(x));
        assert(!dedup_by_source(c, u).contains(x));
    } else {
        let h = c.first();
        lemma_drop_first_contains(c, x);
        assert(c.contains(h)) by {
            assert(c[0] == h);
        }
        assert(forall|y: ObsView|
            c.drop_first().contains(y) ==> c.contains(y)) by {
            assert forall|y: ObsView| c.drop_first().contains(y) implies c.contains(y) by {
                lemma_drop_first_contains(c, y);
            }
        }
        if u.contains(h.source) {
            lemma_dedup_contains(c.drop_first(), u, x);
            if c.contains(x) && !u.contains(x.source) {
                assert(x != h);
            }
        } else {
            let u2 = u.insert(h.source);
            let d2 = dedup_by_source(c.drop_first(), u2);
            lemma_dedup_contains(c.drop_first(), u2, x);
            lemma_drop_first_contains(seq![h] + d2, x);
            assert((seq![h] + d2).first() == h);
            assert((seq![h] + d2).drop_first() =~= d2);
            if x != h && c.drop_first().contains(x) && !u.contains(x.source) {
                assert(x.source != h.source);
            }
        }
    }
}

/// A deduplicated list never carries a source name twice.
proof fn lemma_dedup_distinct(c: Seq<ObsView>, u: Set<Seq<char>>)
    ensures
        distinct_sources(dedup_by_source(c, u)),
    decreases c.len(),
{
    if c.len() > 0 {
        let h = c.first();
        if u.contains(h.source) {
            lemma_dedup_distinct(c.drop_first(), u);
        } else {
            let u2 = u.insert(h.source);
            let d2 = dedup_by_source(c.drop_first(), u2);
            let cur = seq![h] + d2;
            lemma_dedup_distinct(c.drop_first(), u2);
            lemma_dedup_has_source(c.drop_first(), u2, h.source);
            assert(!has_source(d2, h.source));
            assert forall|i: int, j: int| 0 <= i < j < cur.len() implies cur[i].source
                != cur[j].source by {
                assert(cur[0] == h);
                if i == 0 {
                    assert(cur[j] == d2[j - 1]);
                    assert(d2[j - 1].source != h.source);
                } else {
                    assert(cur[i] == d2[i - 1]);
                    assert(cur[j] == d2[j - 1]);
                }
            }
        }
    }
}

/// Filtering by a voted-for day keeps source names pairwise distinct.
proof fn lemma_voters_distinct(s: Seq<ObsView>, day: int)
    requires
        distinct_sources(s),
    ensures
        distinct_sources(voters_for(s, day)),
    decreases s.len(),
{
    if s.len() > 0 {
        let t = s.drop_last();
        assert(distinct_sources(t)) by {
            assert forall|i: int, j: int| 0 <= i < j < t.len() implies t[i].source
                != t[j].source by {
                assert(t[i] == s[i]);
                assert(t[j] == s[j]);
            }
        }
        lemma_voters_distinct(t, day);
        let rest = voters_for(t, day);
        if registers_at(s.last().dt, day) {
            let cur = rest.push(s.last());
            assert(s[s.len() - 1] == s.last());
            assert forall|i: int, j: int| 0 <= i < j < cur.len() implies cur[i].source
                != cur[j].source by {
                if j < rest.len() {
                    assert(cur[i] == rest[i]);
                    assert(cur[j] == rest[j]);
                } else {
                    assert(cur[j] == s.last());
                    assert(cur[i] == rest[i]);
                    assert(rest.contains(rest[i]));
                    lemma_voters_contains(t, day, rest[i]);
                    let k = choose|k: int| 0 <= k < t.len() && t[k] == rest[i];
                    assert(s[k] == t[k]);
                    assert(s[k].source != s[s.len() - 1].source);
                }
            }
        }
    }
}

/// Within each bucket no source name appears twice: from observations with
/// pairwise distinct source names (the data model gives at most one
/// observation per adapter), each bucket's source names are pairwise
/// distinct too.
pub proof fn lemma_buckets_distinct_sources(s: Seq<ObsView>, best: int)
    requires
        distinct_sources(s),
    ensures
        distinct_sources(conc_of(s, best)),
        distinct_sources(close_of(s, best)),
        distinct_sources(far_of(s, best)),
{
    lemma_voters_distinct(s, best);
    lemma_dedup_distinct(close_cands(s, best), src_set(conc_of(s, best)));
    lemma_dedup_distinct(
        far_cands(s, best),
        src_set(conc_of(s, best)).union(src_set(close_of(s, best))),
    );
}

/// The three buckets are pairwise disjoint by source, and every input
/// observation's source lands in exactly one of them.
pub proof fn lemma_buckets_partition(s: Seq<ObsView>, best: int)
    ensures
        forall|t: Seq<char>|
            #[trigger] has_source(close_of(s, best), t) ==> !has_source(conc_of(s, best), t),
        forall|t: Seq<char>|
            #[trigger] has_source(far_of(s, best), t) ==> !has_source(conc_of(s, best), t)
                && !has_source(close_of(s, best), t),
        forall|i: int|
            0 <= i < s.len() ==> has_source(conc_of(s, best), (#[trigger] s[i]).source)
                || has_source(close_of(s, best), s[i].source) || has_source(
                far_of(s, best),
                s[i].source,
            ),
{
    let u0 = src_set(conc_of(s, best));
    let u1 = src_set(conc_of(s, best)).union(src_set(close_of(s, best)));
    assert forall|t: Seq<char>| #[trigger] has_source(close_of(s, best), t) implies !has_source(
        conc_of(s, best),
        t,
    ) by {
        lemma_dedup_has_source(close_cands(s, best), u0, t);
    }
    assert forall|t: Seq<char>| #[trigger] has_source(far_of(s, best), t) implies !has_source(
        conc_of(s, best),
        t,
    ) && !has_source(close_of(s, best), t) by {
        lemma_dedup_has_source(far_cands(s, best), u1, t);
    }
    assert forall|i: int| 0 <= i < s.len() implies has_source(
        conc_of(s, best),
        (#[trigger] s[i]).source,
    ) || has_source(close_of(s, best), s[i].source) || has_source(
        far_of(s, best),
        s[i].source,
    ) by {
        let o = s[i];
        assert(s.contains(o));
        let t = o.source;
        if registers_at(o.dt, best) {
            lemma_voters_contains(s, best, o);
            let j = choose|j: int| 0 <= j < conc_of(s, best).len() && conc_of(s, best)[j] == o;
            assert(has_source(conc_of(s, best), t));
        } else if registers_at(o.dt, prev_day(best)) || registers_at(o.dt, next_day(best)) {
            if registers_at(o.dt, prev_day(best)) {
                lemma_voters_contains(s, prev_day(best), o);
            } else {
                lemma_voters_contains(s, next_day(best), o);
            }
            lemma_concat_contains(
                voters_for(s, prev_day(best)),
                voters_for(s, next_day(best)),
                o,
            );
            let cc = close_cands(s, best);
            let j = choose|j: int| 0 <= j < cc.len() && cc[j] == o;
            assert(has_source(cc, t));
            lemma_dedup_has_source(cc, u0, t);
            if u0.contains(t) {
                assert(has_source(conc_of(s, best), t));
            } else {
                assert(has_source(close_of(s, best), t));
            }
        } else {
            assert(far_reg(o.dt, best));
            lemma_far_cands_contains(s, best, o);
            let fc = far_cands(s, best);
            let j = choose|j: int| 0 <= j < fc.len() && fc[j] == o;
            assert(has_source(fc, t));
            lemma_dedup_has_source(fc, u1, t);
            if u1.contains(t) {
                assert(has_source(conc_of(s, best), t) || has_source(close_of(s, best), t));
            } else {
                assert(has_source(far_of(s, best), t));
            }
        }
    }
}

proof fn lemma_vote_count_remove(s: Seq<ObsView>, i: int, day: int)
    requires
        0 <= i < s.len(),
    ensures
        vote_count(s.remove(i), day) == vote_count(s, day) - (if registers_at(s[i].dt, day) {
            1int
        } else {
            0int
        }),
    decreases s.len(),
{
    if i == s.len() - 1 {
        assert(s.remove(i) =~= s.drop_last());
        assert(s[i] == s.last());
    } else {
        assert(s.remove(i).drop_last() =~= s.drop_last().remove(i));
        assert(s.remove(i).last() == s.last());
        assert(s.drop_last()[i] == s[i]);
        lemma_vote_count_remove(s.drop_last(), i, day);
    }
}

/// Vote counts depend only on the multiset of observations, not on their
/// order.
pub proof fn lemma_vote_count_permutation(s1: Seq<ObsView>, s2: Seq<ObsView>, day: int)
    requires
        s1.to_multiset() == s2.to_multiset(),
    ensures
        vote_count(s1, day) == vote_count(s2, day),
    decreases s1.len(),
{
    broadcast use vstd::seq_lib::group_to_multiset_ensures;

    if s1.len() == 0 {
        assert(s1.to_multiset().len() == s1.len());
        assert(s2.to_multiset().len() == s2.len());
        assert(s2.len() == 0);
    } else {
        let x = s1.last();
        assert(s1[s1.len() - 1] == x);
        assert(s1.contains(x));
        assert(s1.to_multiset().count(x) > 0);
        assert(s2.contains(x));
        let j = choose|j: int| 0 <= j < s2.len() && s2[j] == x;
        assert(s1.remove(s1.len() - 1) =~= s1.drop_last());
        assert(s1.drop_last().to_multiset() == s1.to_multiset().remove(x));
        assert(s2.remove(j).to_multiset() == s2.to_multiset().remove(x));
        lemma_vote_count_permutation(s1.drop_last(), s2.remove(j), day);
        lemma_vote_count_remove(s2, j, day);
    }
}

/// The selected best session is unique, and the same for any reordering of
/// the same observations.
pub proof fn lemma_best_session_unique(
    s1: Seq<ObsView>,
    s2: Seq<ObsView>,
    today: int,
    b1: int,
    b2: int,
)
    requires
        s1.to_multiset() == s2.to_multiset(),
        is_best_session(s1, today, b1),
        is_best_session(s2, today, b2),
    ensures
        b1 == b2,
{
    lemma_vote_count_permutation(s1, s2, b1);
    lemma_vote_count_permutation(s1, s2, b2);
    assert(eligible(s1, today, b2));
    assert(eligible(s2, today, b1));
}

/// The buckets depend only on the multiset of observations: for inputs that
/// are reorderings of each other, each bucket holds the same set of
/// observations.
pub proof fn lemma_buckets_order_independent(s1: Seq<ObsView>, s2: Seq<ObsView>, best: int)
    requires
        s1.to_multiset() == s2.to_multiset(),
        distinct_sources(s1),
    ensures
        forall|x: ObsView|
            #[trigger] conc_of(s1, best).contains(x) <==> conc_of(s2, best).contains(x),
        forall|x: ObsView|
            #[trigger] close_of(s1, best).contains(x) <==> close_of(s2, best).contains(x),
        forall|x: ObsView|
            #[trigger] far_of(s1, best).contains(x) <==> far_of(s2, best).contains(x),
{
    broadcast use vstd::seq_lib::group_to_multiset_ensures;

    assert forall|x: ObsView| s1.contains(x) <==> s2.contains(x) by {
        if s1.contains(x) {
            assert(s1.to_multiset().count(x) > 0);
        }
        if s2.contains(x) {
            assert(s2.to_multiset().count(x) > 0);
        }
    }
    assert forall|y: ObsView, z: ObsView|
        s1.contains(y) && s1.contains(z) && (#[trigger] y.source) == (#[trigger] z.source)
            implies y == z by {
        let i = choose|i: int| 0 <= i < s1.len() && s1[i] == y;
        let j = choose|j: int| 0 <= j < s1.len() && s1[j] == z;
        if i != j {
            assert(s1[i].source != s1[j].source);
        }
    }
    // Concurrences hold the same observations.
    assert forall|x: ObsView|
        #[trigger] conc_of(s1, best).contains(x) <==> conc_of(s2, best).contains(x) by {
        lemma_voters_contains(s1, best, x);
        lemma_voters_contains(s2, best, x);
    }
    // Their source sets are therefore equal.
    assert(src_set(conc_of(s1, best)) =~= src_set(conc_of(s2, best))) by {
        assert forall|t: Seq<char>|
            has_source(conc_of(s1, best), t) <==> has_source(conc_of(s2, best), t) by {
            if has_source(conc_of(s1, best), t) {
                let j = choose|j: int|
                    0 <= j < conc_of(s1, best).len() && (#[trigger] conc_of(s1, best)[j]).source
                        == t;
                let y = conc_of(s1, best)[j];
                assert(conc_of(s1, best).contains(y));
                assert(conc_of(s2, best).contains(y));
                let k = choose|k: int|
                    0 <= k < conc_of(s2, best).len() && conc_of(s2, best)[k] == y;
                assert(has_source(conc_of(s2, best), t));
            }
            if has_source(conc_of(s2, best), t) {
                let j = choose|j: int|
                    0 <= j < conc_of(s2, best).len() && (#[trigger] conc_of(s2, best)[j]).source
                        == t;
                let y = conc_of(s2, best)[j];
                assert(conc_of(s2, best).contains(y));
                assert(conc_of(s1, best).contains(y));
                let k = choose|k: int|
                    0 <= k < conc_of(s1, best).len() && conc_of(s1, best)[k] == y;
                assert(has_source(conc_of(s1, best), t));
            }
        }
    }
    let u0 = src_set(conc_of(s1, best));
    assert(src_set(conc_of(s2, best)) == u0);
    // Close candidates hold the same observations, and determine observations
    // by source, so the deduplicated close buckets hold the same set.
    assert forall|x: ObsView|
        #[trigger] close_cands(s1, best).contains(x) <==> close_cands(s2, best).contains(
            x,
        ) by {
        lemma_concat_contains(voters_for(s1, prev_day(best)), voters_for(s1, next_day(best)), x);
        lemma_concat_contains(voters_for(s2, prev_day(best)), voters_for(s2, next_day(best)), x);
        lemma_voters_contains(s1, prev_day(best), x);
        lemma_voters_contains(s1, next_day(best), x);
        lemma_voters_contains(s2, prev_day(best), x);
        lemma_voters_contains(s2, next_day(best), x);
    }
    assert forall|y: ObsView|
        #[trigger] close_cands(s1, best).contains(y) implies s1.contains(y) by {
        lemma_concat_contains(voters_for(s1, prev_day(best)), voters_for(s1, next_day(best)), y);
        lemma_voters_contains(s1, prev_day(best), y);
        lemma_voters_contains(s1, next_day(best), y);
    }
    assert forall|y: ObsView|
        #[trigger] close_cands(s2, best).contains(y) implies s2.contains(y) by {
        lemma_concat_contains(voters_for(s2, prev_day(best)), voters_for(s2, next_day(best)), y);
        lemma_voters_contains(s2, prev_day(best), y);
        lemma_voters_contains(s2, next_day(best), y);
    }
    assert forall|x: ObsView|
        #[trigger] close_of(s1, best).contains(x) <==> close_of(s2, best).contains(x) by {
        lemma_dedup_contains(close_cands(s1, best), u0, x);
        lemma_dedup_contains(close_cands(s2, best), u0, x);
    }
    // The same again for the far bucket, with both exclusion sets equal.
    assert(src_set(close_of(s1, best)) =~= src_set(close_of(s2, best))) by {
        assert forall|t: Seq<char>|
            has_source(close_of(s1, best), t) <==> has_source(close_of(s2, best), t) by {
            if has_source(close_of(s1, best), t) {
                let j = choose|j: int|
                    0 <= j < close_of(s1, best).len() && (#[trigger] close_of(s1, best)[j]).source
                        == t;
                let y = close_of(s1, best)[j];
                assert(close_of(s1, best).contains(y));
                assert(close_of(s2, best).contains(y));
                let k = choose|k: int|
                    0 <= k < close_of(s2, best).len() && close_of(s2, best)[k] == y;
                assert(has_source(close_of(s2, best), t));
            }
            if has_source(close_of(s2, best), t) {
                let j = choose|j: int|
                    0 <= j < close_of(s2, best).len() && (#[trigger] close_of(s2, best)[j]).source
                        == t;
                let y = close_of(s2, best)[j];
                assert(close_of(s2, best).contains(y));
                assert(close_of(s1, best).contains(y));
                let k = choose|k: int|
                    0 <= k < close_of(s1, best).len() && close_of(s1, best)[k] == y;
                assert(has_source(close_of(s1, best), t));
            }
        }
    }
    let u1 = u0.union(src_set(close_of(s1, best)));
    assert(src_set(conc_of(s2, best)).union(src_set(close_of(s2, best))) == u1);
    assert forall|x: ObsView|
        #[trigger] far_cands(s1, best).contains(x) <==> far_cands(s2, best).contains(x) by {
        lemma_far_cands_contains(s1, best, x);
        lemma_far_cands_contains(s2, best, x);
    }
    assert forall|y: ObsView| #[trigger] far_cands(s1, best).contains(y) implies s1.contains(
        y,
    ) by {
        lemma_far_cands_contains(s1, best, y);
    }
    assert forall|y: ObsView| #[trigger] far_cands(s2, best).contains(y) implies s2.contains(
        y,
    ) by {
        lemma_far_cands_contains(s2, best, y);
    }
    assert forall|x: ObsView|
        #[trigger] far_of(s1, best).contains(x) <==> far_of(s2, best).contains(x) by {
        lemma_dedup_contains(far_cands(s1, best), u1, x);
        lemma_dedup_contains(far_cands(s2, best), u1, x);
    }
}

/// Reconcile the observations into one best guess, measured against the
/// current date `today`.
///
/// Every observation votes for its session; one with unknown timing also
/// votes for the two neighbouring trading days. Among the voted-for sessions
/// on or after `today`, the one with the most votes wins, earliest first on a
/// tie. Sources are then split into the three buckets relative to the winner.
/// When no voted-for session lies on or after `today`, the error is returned
/// instead.
pub fn best_earnings_guess(dates: &Vec<SourcedEarningsTime>, today: Date) -> (r: Result<
    EarningsGuess,
    ReconciliationError,
>)
    requires
        dates_in_range(dates@),
    ensures
        r matches Ok(g) ==> {
            &&& is_best_session(views(dates@), today@, g.last_session@)
            &&& DAY_MARGIN - 6 <= g.last_session.day <= u64::MAX - DAY_MARGIN + 3
            &&& views(g.concurrences@) == conc_of(views(dates@), g.last_session@)
            &&& views(g.close_disagreements@) == close_of(views(dates@), g.last_session@)
            &&& views(g.far_disagreements@) == far_of(views(dates@), g.last_session@)
        },
        r matches Err(e) ==> e == ReconciliationError::NoUpcomingSession,
        r is Err <==> (forall|day: int| !eligible(views(dates@), today@, day)),
{
    let ghost v = views(dates@);

    // Collect every day any observation votes for.
    let mut cands: Vec<u64> = Vec::new();
    let mut i: usize = 0;
    while i < dates.len()
        invariant
            0 <= i <= dates@.len(),
            dates_in_range(dates@),
            v == views(dates@),
            forall|k: int|
                0 <= k < cands@.len() ==> DAY_MARGIN - 6 <= #[trigger] cands@[k] && cands@[k]
                    <= u64::MAX - DAY_MARGIN + 3,
            forall|j: int, day: int|
                0 <= j < i && #[trigger] registers_at(v[j].dt, day) ==> cand_has(cands@, day),
        decreases dates@.len() - i,
    {
        let ghost cands0 = cands@;
        let (s, f) = dates[i].datetime.last_session();
        cands.push(s.day);
        if f {
            let n = s.next_trading_day();
            cands.push(n.day);
            let p = s.prev_trading_day();
            cands.push(p.day);
        }
        proof {
            assert forall|j: int, day: int|
                0 <= j < i + 1 && #[trigger] registers_at(v[j].dt, day) implies cand_has(
                cands@,
                day,
            ) by {
                if j < i {
                    lemma_cand_has_push(cands0, s.day, day);
                    if is_fuzzy(v[i as int].dt) {
                        lemma_cand_has_push(cands0.push(s.day), cands@[cands0.len() as int + 1], day);
                        lemma_cand_has_push(
                            cands0.push(s.day).push(cands@[cands0.len() as int + 1]),
                            cands@[cands0.len() as int + 2],
                            day,
                        );
                    }
                } else {
                    if day == session_day(v[j].dt) {
                        assert(cands@[cands0.len() as int] as int == day);
                    } else if is_fuzzy(v[j].dt) && day == next_day(session_day(v[j].dt)) {
                        assert(cands@[cands0.len() as int + 1] as int == day);
                    } else {
                        assert(cands@[cands0.len() as int + 2] as int == day);
                    }
                }
            }
        }
        i = i + 1;
    }

    // Select the eligible day with the most votes, earliest on a tie.
    let mut best_day: u64 = 0;
    let mut best_count: usize = 0;
    let mut have: bool = false;
    let mut k: usize = 0;
    while k < cands.len()
        invariant
            0 <= k <= cands@.len(),
            dates_in_range(dates@),
            v == views(dates@),
            forall|k2: int|
                0 <= k2 < cands@.len() ==> DAY_MARGIN - 6 <= #[trigger] cands@[k2] && cands@[k2]
                    <= u64::MAX - DAY_MARGIN + 3,
            forall|j: int, day: int|
                0 <= j < v.len() && #[trigger] registers_at(v[j].dt, day) ==> cand_has(
                    cands@,
                    day,
                ),
            have ==> {
                &&& today.day <= best_day
                &&& DAY_MARGIN - 6 <= best_day && best_day <= u64::MAX - DAY_MARGIN + 3
                &&& best_count == vote_count(v, best_day as int)
                &&& best_count > 0
            },
            have ==> forall|day: int|
                today@ <= day && cand_has(cands@.take(k as int), day) && vote_count(v, day) > 0
                    ==> (vote_count(v, day) < best_count || (vote_count(v, day) == best_count
                    && best_day as int <= day)),
            !have ==> forall|day: int|
                today@ <= day && cand_has(cands@.take(k as int), day) ==> vote_count(v, day)
                    == 0,
        decreases cands@.len() - k,
    {
        let c: u64 = cands[k];
        if c >= today.day {
            let n: usize = count_votes(dates, c);
            if n > 0 && (!have || n > best_count || (n == best_count && c < best_day)) {
                best_day = c;
                best_count = n;
                have = true;
            }
        }
        proof {
            assert forall|day: int| cand_has(cands@.take(k + 1), day) implies (day
                == cands@[k as int] as int || cand_has(cands@.take(k as int), day)) by {
                let k2 = choose|k2: int|
                    0 <= k2 < cands@.take(k + 1).len() && (#[trigger] cands@.take(k + 1)[k2])
                        as int == day;
                if k2 < k {
                    assert(cands@.take(k as int)[k2] as int == day);
                }
            }
        }
        k = k + 1;
    }
    proof {
        assert(cands@.take(cands@.len() as int) =~= cands@);
    }
    if !have {
        proof {
            assert forall|day: int| !eligible(v, today@, day) by {
                if today@ <= day && vote_count(v, day) > 0 {
                    lemma_vote_pos_witness(v, day);
                }
            }
        }
        return Err(ReconciliationError::NoUpcomingSession);
    }
    proof {
        assert(eligible(v, today@, best_day as int));
        assert forall|d: int| eligible(v, today@, d) implies (vote_count(v, d) < vote_count(
            v,
            best_day as int,
        ) || (vote_count(v, d) == vote_count(v, best_day as int) && best_day as int <= d)) by {
            lemma_vote_pos_witness(v, d);
        }
        assert(is_best_session(v, today@, best_day as int));
    }

    let best = Date { day: best_day };
    let ghost b: int = best_day as int;
    let pd = best.prev_trading_day();
    let nd = best.next_trading_day();

    // Concurrences: everything that voted for the winning session.
    let mut conc: Vec<SourcedEarningsTime> = Vec::new();
    i = 0;
    while i < dates.len()
        invariant
            0 <= i <= dates@.len(),
            dates_in_range(dates@),
            v == views(dates@),
            b == best.day as int,
            views(conc@) == conc_of(v.take(i as int), b),
        decreases dates@.len() - i,
    {
        proof {
            assert(v.take(i + 1).drop_last() =~= v.take(i as int));
            assert(v.take(i + 1).last() == dates@[i as int]@);
        }
        if registers(&dates[i].datetime, best.day) {
            let ghost conc0 = views(conc@);
            conc.push(dates[i].clone());
            proof {
                assert(views(conc@) =~= conc0.push(dates@[i as int]@));
            }
        }
        i = i + 1;
    }
    proof {
        assert(v.take(v.len() as int) =~= v);
    }

    // Close disagreements: one trading day off, new sources only.
    let ghost u0 = src_set(conc_of(v, b));
    let mut close: Vec<SourcedEarningsTime> = Vec::new();
    i = 0;
    while i < dates.len()
        invariant
            0 <= i <= dates@.len(),
            dates_in_range(dates@),
            v == views(dates@),
            pd.day as int == prev_day(b),
            views(conc@) == conc_of(v, b),
            u0 == src_set(conc_of(v, b)),
            views(close@) == dedup_by_source(voters_for(v.take(i as int), prev_day(b)), u0),
        decreases dates@.len() - i,
    {
        proof {
            assert(v.take(i + 1).drop_last() =~= v.take(i as int));
            assert(v.take(i + 1).last() == dates@[i as int]@);
            lemma_dedup_snoc(voters_for(v.take(i as int), prev_day(b)), dates@[i as int]@, u0);
        }
        if registers(&dates[i].datetime, pd.day) {
            if !contains_source(&conc, &dates[i].source) && !contains_source(
                &close,
                &dates[i].source,
            ) {
                let ghost close0 = views(close@);
                close.push(dates[i].clone());
                proof {
                    assert(views(close@) =~= close0.push(dates@[i as int]@));
                }
            }
        }
        i = i + 1;
    }
    let ghost cc = close_cands(v, b);
    i = 0;
    while i < dates.len()
        invariant
            0 <= i <= dates@.len(),
            dates_in_range(dates@),
            v == views(dates@),
            pd.day as int == prev_day(b),
            nd.day as int == next_day(b),
            views(conc@) == conc_of(v, b),
            u0 == src_set(conc_of(v, b)),
            views(close@) == dedup_by_source(
                voters_for(v, prev_day(b)) + voters_for(v.take(i as int), next_day(b)),
                u0,
            ),
        decreases dates@.len() - i,
    {
        proof {
            assert(v.take(i + 1).drop_last() =~= v.take(i as int));
            assert(v.take(i + 1).last() == dates@[i as int]@);
            lemma_dedup_snoc(
                voters_for(v, prev_day(b)) + voters_for(v.take(i as int), next_day(b)),
                dates@[i as int]@,
                u0,
            );
            if registers_at(dates@[i as int]@.dt, next_day(b)) {
                assert(voters_for(v, prev_day(b)) + voters_for(v.take(i + 1), next_day(b)) =~= (
                voters_for(v, prev_day(b)) + voters_for(v.take(i as int), next_day(b))).push(
                    dates@[i as int]@,
                ));
            } else {
                assert(voters_for(v, prev_day(b)) + voters_for(v.take(i + 1), next_day(b)) =~= (
                voters_for(v, prev_day(b)) + voters_for(v.take(i as int), next_day(b))));
            }
        }
        if registers(&dates[i].datetime, nd.day) {
            if !contains_source(&conc, &dates[i].source) && !contains_source(
                &close,
                &dates[i].source,
            ) {
                let ghost close0 = views(close@);
                close.push(dates[i].clone());
                proof {
                    assert(views(close@) =~= close0.push(dates@[i as int]@));
                }
            }
        }
        i = i + 1;
    }
    proof {
        assert(v.take(v.len() as int) =~= v);
        assert(views(close@) == close_of(v, b));
    }

    // Far disagreements: everything else, new sources only.
    let ghost u1 = src_set(conc_of(v, b)).union(src_set(close_of(v, b)));
    let mut far: Vec<SourcedEarningsTime> = Vec::new();
    i = 0;
    while i < dates.len()
        invariant
            0 <= i <= dates@.len(),
            dates_in_range(dates@),
            v == views(dates@),
            b == best.day as int,
            pd.day as int == prev_day(b),
            nd.day as int == next_day(b),
            views(conc@) == conc_of(v, b),
            views(close@) == close_of(v, b),
            u1 == src_set(conc_of(v, b)).union(src_set(close_of(v, b))),
            views(far@) == dedup_by_source(far_cands(v.take(i as int), b), u1),
        decreases dates@.len() - i,
    {
        proof {
            assert(v.take(i + 1).drop_last() =~= v.take(i as int));
            assert(v.take(i + 1).last() == dates@[i as int]@);
            lemma_dedup_snoc(far_cands(v.take(i as int), b), dates@[i as int]@, u1);
        }
        if is_far(&dates[i].datetime, best.day, pd.day, nd.day) {
            if !contains_source(&conc, &dates[i].source) && !contains_source(
                &close,
                &dates[i].source,
            ) && !contains_source(&far, &dates[i].source) {
                let ghost far0 = views(far@);
                far.push(dates[i].clone());
                proof {
                    assert(views(far@) =~= far0.push(dates@[i as int]@));
                }
            }
        }
        i = i + 1;
    }
    proof {
        assert(v.take(v.len() as int) =~= v);
    }

    Ok(
        EarningsGuess {
            last_session: best,
            concurrences: conc,
            close_disagreements: close,
            far_disagreements: far,
        },
    )
}

} // verus!
