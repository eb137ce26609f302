use earnings::calendar::{from_ymd, Date};
use earnings::earnings::{AnnounceTime, EarningsDateTime};
use earnings::gather::{
    build_url, collect_observations, date_from_day_count, today, AdapterOutcome, AdapterReport,
};

fn d(y: u64, m: u64, day: u64) -> Date {
    from_ymd(y, m, day).unwrap()
}

#[test]
fn collect_keeps_only_found_outcomes() {
    let reports = vec![
        AdapterReport {
            source: "A".to_string(),
            outcome: AdapterOutcome::Found(EarningsDateTime {
                date: d(2024, 3, 7),
                time: AnnounceTime::AfterMarket,
            }),
        },
        AdapterReport { source: "B".to_string(), outcome: AdapterOutcome::NoData },
        AdapterReport {
            source: "E".to_string(),
            outcome: AdapterOutcome::ExtractionFailure("no selector matched".to_string()),
        },
        AdapterReport {
            source: "C".to_string(),
            outcome: AdapterOutcome::TransportFailure("connection refused".to_string()),
        },
        AdapterReport {
            source: "D".to_string(),
            outcome: AdapterOutcome::Found(EarningsDateTime {
                date: d(2024, 3, 8),
                time: AnnounceTime::Unknown,
            }),
        },
    ];
    let n = reports.len();
    let got = collect_observations(&reports);
    assert!(got.len() <= n);
    assert_eq!(got.len(), 2);
    assert_eq!(got[0].source, "A");
    assert_eq!(got[0].datetime.date, d(2024, 3, 7));
    assert_eq!(got[1].source, "D");
    let mut names: Vec<String> = got.iter().map(|o| o.source.clone()).collect();
    names.dedup();
    assert_eq!(names.len(), got.len());
}

#[test]
fn collect_of_no_reports_is_empty() {
    let reports: Vec<AdapterReport> = Vec::new();
    assert!(collect_observations(&reports).is_empty());
}

#[test]
fn build_url_replaces_the_placeholder() {
    let template = b"https://quotes.example/{}:US".to_vec();
    let symbol = b"AAPL".to_vec();
    assert_eq!(build_url(&template, &symbol), b"https://quotes.example/AAPL:US".to_vec());
}

#[test]
fn build_url_replaces_every_placeholder_and_keeps_others() {
    let template = b"https://e.example/{}/report/{}".to_vec();
    let symbol = b"MSFT".to_vec();
    assert_eq!(
        build_url(&template, &symbol),
        b"https://e.example/MSFT/report/MSFT".to_vec()
    );
    let plain = b"https://e.example/static".to_vec();
    assert_eq!(build_url(&plain, &symbol), plain);
    let empty_symbol: Vec<u8> = Vec::new();
    assert_eq!(build_url(&b"a{}b".to_vec(), &empty_symbol), b"ab".to_vec());
}

#[test]
fn date_from_day_count_accepts_exactly_the_supported_range() {
    assert!(date_from_day_count(-1).is_none());
    assert!(date_from_day_count(0).is_none());
    assert!(date_from_day_count(15).is_none());
    assert_eq!(date_from_day_count(16).unwrap().day, 16);
    assert_eq!(date_from_day_count(738953).unwrap(), d(2024, 3, 8));
    assert_eq!(date_from_day_count(96_000_000).unwrap().day, 96_000_000);
    assert!(date_from_day_count(96_000_001).is_none());
    assert!(date_from_day_count(i64::MAX).is_none());
}

#[test]
fn today_is_in_arithmetic_range_when_present() {
    if let Some(t) = today() {
        assert!(t.day >= 16);
        assert!(t.day <= 96000000);
    }
}
