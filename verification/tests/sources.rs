use traffic_stats::hysteria::{Config, Source, Traffic};
use traffic_stats::samples::{
    refresh_hysteria, refresh_xray, unknown_stats, unknown_users, Clash,
};
use traffic_stats::users::{hysteria_map, name_map, UidMap, User};
use traffic_stats::xray::{query, read_stat, RawStat, StatError, Stats};

fn raw(name: &str, value: i64) -> RawStat {
    RawStat { name: name.to_string(), value }
}

fn known() -> UidMap {
    let mut names = UidMap::new();
    names.insert("root".to_string(), 7);
    names.insert("guest".to_string(), 3);
    names.insert("admin".to_string(), 7);
    names
}

fn samples(counters: Vec<RawStat>) -> Result<Vec<(u32, u64, u64)>, Clash> {
    let stats = Stats::new(counters);
    let readings = stats.iter().unwrap();
    refresh_xray(&readings, &known())
}

#[test]
fn counter_of_a_user() {
    let counter = raw("user>>>root@a.cc>>>traffic>>>downlink", 4489573739);
    let stat = read_stat(&counter).unwrap();
    assert_eq!(stat.email, "root@a.cc");
    assert!(!stat.is_tx);
    assert_eq!(stat.value, 4489573739);

    let counter = raw("user>>>root@a.cc>>>traffic>>>uplink", i64::MAX);
    let stat = read_stat(&counter).unwrap();
    assert!(stat.is_tx);
    assert_eq!(stat.value, 9_223_372_036_854_775_807);
}

#[test]
fn emails_with_odd_characters() {
    for email in ["", "字", ">x", "a>>b", "a b", "@"] {
        let counter = RawStat { name: format!("user>>>{}>>>traffic>>>uplink", email), value: 1 };
        let stat = read_stat(&counter).unwrap();
        assert_eq!(stat.email, email);
        assert!(stat.is_tx);
    }
    // An angle bracket at the end of the email runs into the separator.
    assert_eq!(
        read_stat(&raw("user>>>x>>>>traffic>>>uplink", 1)).unwrap_err(),
        StatError::NotTraffic,
    );
}

#[test]
fn counters_that_cannot_be_read() {
    let cases = [
        ("", StatError::NotUser),
        ("inbound>>>api>>>traffic>>>uplink", StatError::NotUser),
        ("users>>>a>>>traffic>>>uplink", StatError::NotUser),
        ("user", StatError::NoEmail),
        ("user>>>a", StatError::NotTraffic),
        ("user>>>a>>>online", StatError::NotTraffic),
        ("user>>>a>>>traffic", StatError::NoLink),
        ("user>>>a>>>traffic>>>", StatError::BadLink),
        ("user>>>a>>>traffic>>>uplinks", StatError::BadLink),
        ("user>>>a>>>traffic>>>uplink>>>", StatError::TooLong),
        ("user>>>a>>>traffic>>>downlink>>>x", StatError::TooLong),
    ];
    for (name, error) in cases {
        assert_eq!(read_stat(&raw(name, 1)).unwrap_err(), error, "{}", name);
    }
    assert_eq!(
        read_stat(&raw("user>>>a>>>traffic>>>uplink", -1)).unwrap_err(),
        StatError::NotPositive,
    );
    assert_eq!(
        read_stat(&raw("user>>>a>>>traffic>>>uplink", 0)).unwrap_err(),
        StatError::NotPositive,
    );
}

#[test]
fn counters_at_zero_are_passed_over() {
    let stats = Stats::new(vec![
        raw("inbound>>>api>>>traffic>>>uplink", 0),
        raw("user>>>a@x>>>traffic>>>uplink", 5),
        raw("user>>>a@x>>>traffic>>>downlink", 0),
        raw("user>>>b@x>>>traffic>>>downlink", 6),
    ]);
    let readings = stats.iter().unwrap();
    assert_eq!(readings.len(), 2);
    assert_eq!((readings[0].email, readings[0].is_tx, readings[0].value), ("a@x", true, 5));
    assert_eq!((readings[1].email, readings[1].is_tx, readings[1].value), ("b@x", false, 6));
}

#[test]
fn the_first_unreadable_counter_is_at_fault() {
    let stats = Stats::new(vec![
        raw("user>>>a@x>>>traffic>>>uplink", 5),
        raw("user>>>a@x>>>traffic", 5),
        raw("inbound>>>api>>>traffic>>>uplink", 5),
    ]);
    assert_eq!(stats.iter().unwrap_err(), StatError::NoLink);
    assert_eq!(Stats::new(vec![]).iter().unwrap().len(), 0);
    let stats = Stats::new(vec![raw("user>>>a@x>>>traffic>>>uplink", -5)]);
    assert_eq!(stats.iter().unwrap_err(), StatError::NotPositive);
}

#[test]
fn request_for_all_counters() {
    let request = query(true);
    assert_eq!(request.pattern, "");
    assert!(request.reset);
    assert!(!query(false).reset);
}

#[test]
fn request_for_hysteria_traffic() {
    let source = Source::new(Config {
        secret: "open sesame".to_string(),
        url: "http://127.0.0.1:9999/traffic".to_string(),
    });
    let request = source.traffic(true);
    assert_eq!(request.url, "http://127.0.0.1:9999/traffic?clear=1");
    assert_eq!(request.authorization, "open sesame");
    let request = source.traffic(false);
    assert_eq!(request.url, "http://127.0.0.1:9999/traffic");
    assert_eq!(request.authorization, "open sesame");
}

#[test]
fn samples_come_by_user_id() {
    let found = samples(vec![
        raw("user>>>root@a>>>traffic>>>uplink", 10),
        raw("user>>>guest@a>>>traffic>>>downlink", 20),
        raw("user>>>root@a>>>traffic>>>downlink", 30),
        raw("user>>>nobody@a>>>traffic>>>downlink", 40),
    ]);
    assert_eq!(found, Ok(vec![(3, 0, 20), (7, 10, 30)]));
}

#[test]
fn unknown_users_give_no_sample() {
    assert_eq!(samples(vec![raw("user>>>nobody@a>>>traffic>>>uplink", 1)]), Ok(vec![]));
    assert_eq!(samples(vec![]), Ok(vec![]));
}

#[test]
fn readings_of_one_user_and_direction_clash() {
    assert_eq!(
        samples(vec![
            raw("user>>>root@a>>>traffic>>>uplink", 1),
            raw("user>>>root@b>>>traffic>>>uplink", 2),
        ]),
        Err(Clash),
    );
    // Two names of one user id.
    assert_eq!(
        samples(vec![
            raw("user>>>root@a>>>traffic>>>downlink", 1),
            raw("user>>>guest@a>>>traffic>>>downlink", 1),
            raw("user>>>admin@a>>>traffic>>>downlink", 1),
        ]),
        Err(Clash),
    );
    // Unknown users do not clash, nor do directions.
    assert_eq!(
        samples(vec![
            raw("user>>>nobody@a>>>traffic>>>uplink", 1),
            raw("user>>>nobody@a>>>traffic>>>uplink", 2),
            raw("user>>>root@a>>>traffic>>>uplink", 3),
            raw("user>>>admin@a>>>traffic>>>downlink", 4),
        ]),
        Ok(vec![(7, 3, 4)]),
    );
}

#[test]
fn hysteria_samples_come_in_order() {
    let users = vec![
        User { uid: 9, name: "a".to_string(), uuid: "aaaa-1".to_string() },
        User { uid: 4, name: "b".to_string(), uuid: "bbbb-1".to_string() },
    ];
    let report = vec![
        ("aaaa".to_string(), Traffic { tx: 1, rx: 2 }),
        ("aaaa-1".to_string(), Traffic { tx: 3, rx: 4 }),
        ("bbbb".to_string(), Traffic { tx: 0, rx: 0 }),
        ("a".to_string(), Traffic { tx: 5, rx: 6 }),
    ];
    assert_eq!(refresh_hysteria(&report, &hysteria_map(&users)), vec![(9, 1, 2), (4, 0, 0)]);
    assert_eq!(refresh_hysteria(&report, &name_map(&users)), vec![(9, 5, 6)]);
    assert_eq!(refresh_hysteria(&vec![], &name_map(&users)), vec![]);
}

#[test]
fn readings_that_are_left_out() {
    let stats = Stats::new(vec![
        raw("user>>>nobody@a>>>traffic>>>uplink", 1),
        raw("user>>>root@a>>>traffic>>>uplink", 2),
        raw("user>>>@a>>>traffic>>>downlink", 3),
        raw("user>>>nobody@a>>>traffic>>>uplink", 0),
    ]);
    let readings = stats.iter().unwrap();
    let left_out = unknown_stats(&readings, &known());
    assert_eq!(left_out.len(), 2);
    assert_eq!((left_out[0].email, left_out[0].is_tx, left_out[0].value), ("nobody@a", true, 1));
    assert_eq!((left_out[1].email, left_out[1].is_tx, left_out[1].value), ("@a", false, 3));
    assert!(unknown_stats(&vec![], &known()).is_empty());
}

#[test]
fn hysteria_users_that_are_left_out() {
    let report = vec![
        ("guest".to_string(), Traffic { tx: 1, rx: 2 }),
        ("nobody".to_string(), Traffic { tx: 3, rx: 4 }),
        ("root".to_string(), Traffic { tx: 5, rx: 6 }),
        ("".to_string(), Traffic { tx: 0, rx: 0 }),
    ];
    let left_out = unknown_users(&report, &known());
    assert_eq!(
        left_out,
        vec![
            ("nobody".to_string(), Traffic { tx: 3, rx: 4 }),
            ("".to_string(), Traffic { tx: 0, rx: 0 }),
        ],
    );
    assert_eq!(left_out.len() + refresh_hysteria(&report, &known()).len(), report.len());
}

#[test]
fn the_order_of_readings_does_not_matter() {
    let names = ["root@a>>>traffic>>>uplink", "guest@a>>>traffic>>>downlink",
        "admin@a>>>traffic>>>downlink", "nobody@a>>>traffic>>>uplink"];
    for shift in 0..names.len() {
        let mut counters = Vec::new();
        for i in 0..names.len() {
            let k: usize = (i + shift) % names.len();
            counters.push(RawStat { name: format!("user>>>{}", names[k]), value: k as i64 + 1 });
        }
        assert_eq!(samples(counters), Ok(vec![(3, 0, 2), (7, 1, 3)]));
    }
    let clashing = |a: i64, b: i64| {
        samples(vec![
            raw("user>>>root@a>>>traffic>>>uplink", a),
            raw("user>>>admin@a>>>traffic>>>uplink", b),
        ])
    };
    assert_eq!(clashing(1, 2), Err(Clash));
    assert_eq!(clashing(2, 1), Err(Clash));
}
