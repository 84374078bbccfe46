use dyndns::address::{Address, Family};
use dyndns::reconcile::{plan_updates, plan_zones, record_type_for, Write};
use dyndns::registrar::{envelope_result, CFError, CloudflareResponse, Record, RecordType, RegistrarError};

fn rec(id: &str, t: RecordType, content: &str) -> Record {
    Record {
        name: format!("{id}.example.com"),
        id: id.to_string(),
        ttl: 300,
        record_type: t,
        content: Some(content.to_string()),
        comment: Some("keep".to_string()),
        proxied: Some(true),
    }
}

fn zone() -> Vec<Record> {
    vec![
        rec("a1", RecordType::A, "1.2.3.4"),
        rec("q1", RecordType::AAAA, "::1"),
        rec("c1", RecordType::CNAME, "other.example.com"),
        rec("t1", RecordType::TXT, "hello"),
        rec("a2", RecordType::A, "5.6.7.8"),
    ]
}

fn sent(w: &Write) -> &Record {
    match w {
        Write::Send(r) => r,
        Write::Report(_) => panic!("expected a real write"),
    }
}

#[test]
fn family_filter_keeps_only_a_records() {
    let w = plan_updates(zone(), &Address::V4(5, 6, 7, 8), false);
    assert_eq!(w.len(), 2);
    assert_eq!(sent(&w[0]).id, "a1");
    assert_eq!(sent(&w[1]).id, "a2");
    assert!(w.iter().all(|w| sent(w).record_type == RecordType::A));
}

#[test]
fn family_filter_keeps_only_aaaa_records() {
    let w = plan_updates(zone(), &Address::V6([0x2001, 0xdb8, 0, 0, 0, 0, 0, 1]), false);
    assert_eq!(w.len(), 1);
    assert_eq!(sent(&w[0]).id, "q1");
    assert_eq!(sent(&w[0]).content.as_deref(), Some("2001:db8::1"));
}

#[test]
fn content_overwrite_keeps_other_fields() {
    let w = plan_updates(vec![rec("a1", RecordType::A, "1.2.3.4")], &Address::V4(5, 6, 7, 8), false);
    assert_eq!(w.len(), 1);
    let r = sent(&w[0]);
    assert_eq!(r.content.as_deref(), Some("5.6.7.8"));
    assert_eq!(r.name, "a1.example.com");
    assert_eq!(r.id, "a1");
    assert_eq!(r.ttl, 300);
    assert_eq!(r.record_type, RecordType::A);
    assert_eq!(r.comment.as_deref(), Some("keep"));
    assert_eq!(r.proxied, Some(true));
}

#[test]
fn equal_content_is_still_written() {
    let w = plan_updates(vec![rec("a2", RecordType::A, "5.6.7.8")], &Address::V4(5, 6, 7, 8), false);
    assert_eq!(w.len(), 1);
}

#[test]
fn no_matching_records_is_a_no_op() {
    let w = plan_updates(vec![rec("t1", RecordType::TXT, "x")], &Address::V4(1, 1, 1, 1), false);
    assert!(w.is_empty());
}

#[test]
fn mock_mode_only_reports() {
    let w = plan_updates(zone(), &Address::V4(5, 6, 7, 8), true);
    assert_eq!(w.len(), 2);
    for x in &w {
        match x {
            Write::Report(r) => assert_eq!(r.content.as_deref(), Some("5.6.7.8")),
            Write::Send(_) => panic!("dry-run must not send"),
        }
    }
}

#[test]
fn zone_isolation() {
    let plans = plan_zones(vec![Err("listing failed".to_string()), Ok(zone())], &Address::V4(9, 9, 9, 9), false);
    assert_eq!(plans.len(), 2);
    assert_eq!(plans[0].as_ref().err().map(|s| s.as_str()), Some("listing failed"));
    let w = plans[1].as_ref().ok().unwrap();
    assert_eq!(w.len(), 2);
    assert_eq!(sent(&w[0]).content.as_deref(), Some("9.9.9.9"));
}

#[test]
fn record_type_per_family() {
    assert_eq!(record_type_for(Family::V4), RecordType::A);
    assert_eq!(record_type_for(Family::V6), RecordType::AAAA);
}

fn envelope(success: bool, result: Option<u32>) -> CloudflareResponse<u32> {
    CloudflareResponse {
        errors: vec![CFError { code: 9109, message: "bad token".to_string(), documentation_url: None, source: None }],
        messages: vec![],
        success,
        result,
        result_info: None,
    }
}

#[test]
fn envelope_checks() {
    assert!(matches!(envelope_result(envelope(true, Some(7))), Ok(7)));
    assert!(matches!(envelope_result(envelope(true, None)), Err(RegistrarError::MissingResult)));
    match envelope_result(envelope(false, Some(7))) {
        Err(RegistrarError::Rejected { errors, messages }) => {
            assert_eq!(errors.len(), 1);
            assert_eq!(errors[0].code, 9109);
            assert!(messages.is_empty());
        }
        _ => panic!("a failed envelope is rejected"),
    }
}
