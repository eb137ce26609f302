use earnings::calendar::{from_ymd, Date};
use earnings::earnings::{
    best_earnings_guess, AnnounceTime, EarningsDateTime, EarningsGuess, ReconciliationError,
    SourcedEarningsTime,
};

fn d(y: u64, m: u64, day: u64) -> Date {
    from_ymd(y, m, day).unwrap()
}

fn obs(source: &str, time: AnnounceTime, date: Date) -> SourcedEarningsTime {
    SourcedEarningsTime { datetime: EarningsDateTime { date, time }, source: source.to_string() }
}

fn sources(bucket: &Vec<SourcedEarningsTime>) -> Vec<String> {
    let mut v: Vec<String> = bucket.iter().map(|o| o.source.clone()).collect();
    v.sort();
    v
}

#[test]
fn last_session_shifts_before_market_open() {
    // A before-market announcement on Friday 2024-03-08 belongs to the
    // Thursday 2024-03-07 session and is not fuzzy.
    let x = EarningsDateTime { date: d(2024, 3, 8), time: AnnounceTime::BeforeMarket };
    assert_eq!(x.last_session(), (d(2024, 3, 7), false));
    let y = EarningsDateTime { date: d(2024, 3, 7), time: AnnounceTime::AfterMarket };
    assert_eq!(y.last_session(), (d(2024, 3, 7), false));
    let z = EarningsDateTime { date: d(2024, 3, 7), time: AnnounceTime::Unknown };
    assert_eq!(z.last_session(), (d(2024, 3, 7), true));
}

#[test]
fn announce_time_codes() {
    assert_eq!(AnnounceTime::BeforeMarket.code(), "BMO");
    assert_eq!(AnnounceTime::AfterMarket.code(), "AMC");
    assert_eq!(AnnounceTime::Unknown.code(), "");
}

#[test]
fn two_sources_concur_across_the_session_boundary() {
    // X says before market open on Friday 2024-03-08, Y says after market
    // close on Thursday 2024-03-07: both mean the Thursday session.
    let dates = vec![
        obs("X", AnnounceTime::BeforeMarket, d(2024, 3, 8)),
        obs("Y", AnnounceTime::AfterMarket, d(2024, 3, 7)),
    ];
    let g = best_earnings_guess(&dates, d(2024, 3, 7)).unwrap();
    assert_eq!(g.last_session, d(2024, 3, 7));
    assert_eq!(sources(&g.concurrences), vec!["X".to_string(), "Y".to_string()]);
    assert!(g.close_disagreements.is_empty());
    assert!(g.far_disagreements.is_empty());
}

#[test]
fn fuzzy_observation_votes_for_three_sessions_and_concurs() {
    // Z's timing is unknown, so it votes for Wednesday, Thursday and Friday;
    // Thursday then has three votes and Z counts as a concurrence.
    let dates = vec![
        obs("X", AnnounceTime::BeforeMarket, d(2024, 3, 8)),
        obs("Y", AnnounceTime::AfterMarket, d(2024, 3, 7)),
        obs("Z", AnnounceTime::Unknown, d(2024, 3, 7)),
    ];
    let g = best_earnings_guess(&dates, d(2024, 3, 6)).unwrap();
    assert_eq!(g.last_session, d(2024, 3, 7));
    assert_eq!(
        sources(&g.concurrences),
        vec!["X".to_string(), "Y".to_string(), "Z".to_string()]
    );
    assert!(g.close_disagreements.is_empty());
    assert!(g.far_disagreements.is_empty());
}

#[test]
fn all_sessions_in_the_past_is_an_error() {
    let dates = vec![
        obs("X", AnnounceTime::BeforeMarket, d(2024, 3, 8)),
        obs("Y", AnnounceTime::AfterMarket, d(2024, 3, 7)),
    ];
    let r = best_earnings_guess(&dates, d(2024, 3, 12));
    assert_eq!(r.unwrap_err(), ReconciliationError::NoUpcomingSession);
}

#[test]
fn empty_observations_is_an_error() {
    let dates: Vec<SourcedEarningsTime> = Vec::new();
    let r = best_earnings_guess(&dates, d(2024, 3, 7));
    assert_eq!(r.unwrap_err(), ReconciliationError::NoUpcomingSession);
}

#[test]
fn one_day_off_lands_in_close_disagreements() {
    // V names the Friday session, one trading day after the winning
    // Thursday.
    let dates = vec![
        obs("X", AnnounceTime::BeforeMarket, d(2024, 3, 8)),
        obs("Y", AnnounceTime::AfterMarket, d(2024, 3, 7)),
        obs("V", AnnounceTime::AfterMarket, d(2024, 3, 8)),
    ];
    let g = best_earnings_guess(&dates, d(2024, 3, 7)).unwrap();
    assert_eq!(g.last_session, d(2024, 3, 7));
    assert_eq!(sources(&g.concurrences), vec!["X".to_string(), "Y".to_string()]);
    assert_eq!(sources(&g.close_disagreements), vec!["V".to_string()]);
    assert!(g.far_disagreements.is_empty());
}

#[test]
fn far_off_lands_in_far_disagreements() {
    let dates = vec![
        obs("X", AnnounceTime::BeforeMarket, d(2024, 3, 8)),
        obs("Y", AnnounceTime::AfterMarket, d(2024, 3, 7)),
        obs("W", AnnounceTime::AfterMarket, d(2024, 3, 15)),
    ];
    let g = best_earnings_guess(&dates, d(2024, 3, 6)).unwrap();
    assert_eq!(g.last_session, d(2024, 3, 7));
    assert_eq!(sources(&g.concurrences), vec!["X".to_string(), "Y".to_string()]);
    assert!(g.close_disagreements.is_empty());
    assert_eq!(sources(&g.far_disagreements), vec!["W".to_string()]);
}

#[test]
fn buckets_are_disjoint_and_cover_every_source() {
    let dates = vec![
        obs("X", AnnounceTime::BeforeMarket, d(2024, 3, 8)),
        obs("Y", AnnounceTime::AfterMarket, d(2024, 3, 7)),
        obs("Z", AnnounceTime::Unknown, d(2024, 3, 8)),
        obs("V", AnnounceTime::AfterMarket, d(2024, 3, 8)),
        obs("W", AnnounceTime::AfterMarket, d(2024, 3, 15)),
    ];
    let g = best_earnings_guess(&dates, d(2024, 3, 6)).unwrap();
    let mut all = sources(&g.concurrences);
    all.extend(sources(&g.close_disagreements));
    all.extend(sources(&g.far_disagreements));
    assert_eq!(all.len(), dates.len());
    all.sort();
    all.dedup();
    assert_eq!(
        all,
        vec![
            "V".to_string(),
            "W".to_string(),
            "X".to_string(),
            "Y".to_string(),
            "Z".to_string()
        ]
    );
}

#[test]
fn earliest_date_wins_a_tie() {
    let dates = vec![
        obs("X", AnnounceTime::AfterMarket, d(2024, 3, 7)),
        obs("Y", AnnounceTime::AfterMarket, d(2024, 3, 11)),
    ];
    let g = best_earnings_guess(&dates, d(2024, 3, 6)).unwrap();
    assert_eq!(g.last_session, d(2024, 3, 7));
    assert_eq!(sources(&g.concurrences), vec!["X".to_string()]);
}

#[test]
fn reordered_input_gives_the_same_buckets() {
    let forward = vec![
        obs("X", AnnounceTime::BeforeMarket, d(2024, 3, 8)),
        obs("Y", AnnounceTime::AfterMarket, d(2024, 3, 7)),
        obs("Z", AnnounceTime::Unknown, d(2024, 3, 7)),
        obs("W", AnnounceTime::AfterMarket, d(2024, 3, 15)),
    ];
    let backward = vec![
        obs("W", AnnounceTime::AfterMarket, d(2024, 3, 15)),
        obs("Z", AnnounceTime::Unknown, d(2024, 3, 7)),
        obs("Y", AnnounceTime::AfterMarket, d(2024, 3, 7)),
        obs("X", AnnounceTime::BeforeMarket, d(2024, 3, 8)),
    ];
    let today = d(2024, 3, 6);
    let g1: EarningsGuess = best_earnings_guess(&forward, today).unwrap();
    let g2: EarningsGuess = best_earnings_guess(&backward, today).unwrap();
    assert_eq!(g1.last_session, g2.last_session);
    assert_eq!(sources(&g1.concurrences), sources(&g2.concurrences));
    assert_eq!(sources(&g1.close_disagreements), sources(&g2.close_disagreements));
    assert_eq!(sources(&g1.far_disagreements), sources(&g2.far_disagreements));
}

#[test]
fn repeated_call_gives_identical_buckets() {
    let dates = vec![
        obs("X", AnnounceTime::BeforeMarket, d(2024, 3, 8)),
        obs("Y", AnnounceTime::AfterMarket, d(2024, 3, 7)),
        obs("W", AnnounceTime::AfterMarket, d(2024, 3, 15)),
    ];
    let today = d(2024, 3, 6);
    let g1 = best_earnings_guess(&dates, today).unwrap();
    let g2 = best_earnings_guess(&dates, today).unwrap();
    assert_eq!(g1.last_session, g2.last_session);
    assert_eq!(sources(&g1.concurrences), sources(&g2.concurrences));
    assert_eq!(sources(&g1.close_disagreements), sources(&g2.close_disagreements));
    assert_eq!(sources(&g1.far_disagreements), sources(&g2.far_disagreements));
}
