use dyndns::address::{Address, CodecError};
use dyndns::pinger::{IpPinger, IpPingerBuilder};
use dyndns::race::{classify_answer, Arrival, PingerError, Race, RaceStep};

fn transport(m: &str) -> PingerError {
    PingerError::Transport { message: m.to_string() }
}

#[test]
fn single_winner_among_three() {
    let b = Address::V4(5, 6, 7, 8);
    let arrivals = vec![
        Arrival { remote: 0, outcome: Err(transport("connection refused")) },
        Arrival { remote: 1, outcome: Ok(b) },
        Arrival { remote: 2, outcome: Err(transport("timed out")) },
    ];
    match Race::new(3).race_over(arrivals) {
        RaceStep::Won(a) => assert_eq!(a, b),
        _ => panic!("the race should be won"),
    }
}

#[test]
fn winner_first_while_others_never_answer() {
    let b = Address::V6([0x2001, 0xdb8, 0, 0, 0, 0, 0, 1]);
    let arrivals = vec![Arrival { remote: 1, outcome: Ok(b) }];
    match Race::new(3).race_over(arrivals) {
        RaceStep::Won(a) => assert_eq!(a, b),
        _ => panic!("the race should be won"),
    }
}

#[test]
fn all_fail_reports_each_remote() {
    let arrivals = vec![
        Arrival { remote: 2, outcome: Err(PingerError::ErrorResponse { body: "nope".to_string(), status: 500 }) },
        Arrival { remote: 0, outcome: Err(transport("dns")) },
        Arrival {
            remote: 1,
            outcome: Err(PingerError::InvalidResponse { error: CodecError::MissingSpace }),
        },
    ];
    match Race::new(3).race_over(arrivals) {
        RaceStep::Failed(v) => {
            assert_eq!(v.len(), 3);
            assert_eq!(v[0].remote, 2);
            assert!(matches!(&v[0].error, PingerError::ErrorResponse { body, status: 500 } if body == "nope"));
            assert_eq!(v[1].remote, 0);
            assert!(matches!(&v[1].error, PingerError::Transport { .. }));
            assert_eq!(v[2].remote, 1);
            assert!(matches!(&v[2].error, PingerError::InvalidResponse { error: CodecError::MissingSpace }));
        }
        _ => panic!("the race should fail"),
    }
}

#[test]
fn pending_until_every_remote_answers() {
    let race = Race::new(2);
    match race.record(0, Err(transport("x"))) {
        RaceStep::Pending(r) => match r.record(1, Err(transport("y"))) {
            RaceStep::Failed(v) => assert_eq!(v.len(), 2),
            _ => panic!("both failed"),
        },
        _ => panic!("one remote still out"),
    }
}

#[test]
fn no_remotes_fails_at_once() {
    match Race::new(0).race_over(vec![]) {
        RaceStep::Failed(v) => assert!(v.is_empty()),
        _ => panic!("nothing to wait for"),
    }
}

#[test]
fn remotes_are_parsed_as_urls() {
    let p = IpPinger::builder().with_remote("http://example.com").unwrap();
    let p = p.with_remote("https://ip.example.org:8443/base").unwrap().build();
    assert_eq!(p.remotes, vec!["http://example.com/".to_string(), "https://ip.example.org:8443/base".to_string()]);
    assert_eq!(p.endpoint(0), "http://example.com/ip");
    assert_eq!(p.endpoint(1), "https://ip.example.org:8443/base/ip");
    assert_eq!(p.start().done.len(), 2);
}

#[test]
fn invalid_remote_is_rejected() {
    match IpPingerBuilder::new().with_remote("not a url") {
        Err(PingerError::InvalidRemote { remote }) => assert_eq!(remote, "not a url"),
        _ => panic!("should be rejected"),
    }
}

#[test]
fn endpoint_of_port_base() {
    let p = IpPinger::builder().with_remote("http://h:8080").unwrap().build();
    assert_eq!(p.endpoint(0), "http://h:8080/ip");
}

#[test]
fn classify_non_2xx_keeps_status_and_body() {
    match classify_answer(503, "busy".to_string()) {
        Err(PingerError::ErrorResponse { body, status }) => {
            assert_eq!(body, "busy");
            assert_eq!(status, 503);
        }
        _ => panic!("a 503 is an error response"),
    }
    assert!(matches!(classify_answer(199, "IPv4 1.2.3.4".to_string()), Err(PingerError::ErrorResponse { status: 199, .. })));
    assert!(matches!(classify_answer(300, String::new()), Err(PingerError::ErrorResponse { status: 300, .. })));
}

#[test]
fn classify_2xx_decodes_body() {
    assert_eq!(classify_answer(200, "IPv4 1.2.3.4".to_string()).unwrap(), Address::V4(1, 2, 3, 4));
    assert_eq!(classify_answer(204, "IPv6 ::1".to_string()).unwrap(), Address::V6([0, 0, 0, 0, 0, 0, 0, 1]));
    assert!(matches!(
        classify_answer(200, "garbage".to_string()),
        Err(PingerError::InvalidResponse { error: CodecError::MissingSpace })
    ));
}
