//! First-hop protocol checks.
use mailiner_proxy::connection::{Message, Written};
use mailiner_proxy::dest::parse_remote;
use mailiner_proxy::metrics::{Error, RejectReason};
use mailiner_proxy::probe::{after_sending, GreetingProbe, ProbeEvent, ProbeStep, TlsProbe};
use mailiner_proxy::proto::{
    greeting_complete, max_greeting_bytes, parse_sni, probe_for_port, tls_record_needed,
    validate_greeting, validate_tls_client_hello, ProbeKind, ProtoError,
};

fn hello_with_extensions(ext: &[u8]) -> Vec<u8> {
    let mut hello = Vec::new();
    hello.extend_from_slice(&[0x03, 0x03]); // client version TLS 1.2
    hello.extend_from_slice(&[0u8; 32]); // random
    hello.push(0); // session_id
    hello.extend_from_slice(&2u16.to_be_bytes()); // cipher suites len
    hello.extend_from_slice(&[0x00, 0x2f]);
    hello.push(1); // compression len
    hello.push(0);
    hello.extend_from_slice(&(ext.len() as u16).to_be_bytes());
    hello.extend_from_slice(ext);
    record_of(&hello)
}

fn record_of(hello: &[u8]) -> Vec<u8> {
    let mut hs = Vec::new();
    hs.push(0x01); // ClientHello
    let hs_len = hello.len();
    hs.push(((hs_len >> 16) & 0xff) as u8);
    hs.push(((hs_len >> 8) & 0xff) as u8);
    hs.push((hs_len & 0xff) as u8);
    hs.extend_from_slice(hello);

    let mut rec = Vec::new();
    rec.push(0x16);
    rec.extend_from_slice(&[0x03, 0x01]);
    rec.extend_from_slice(&(hs.len() as u16).to_be_bytes());
    rec.extend_from_slice(&hs);
    rec
}

fn sni_extension(name_b: &[u8]) -> Vec<u8> {
    // SNI extension body: list_len + name_type + name_len + name
    let mut sni_body = Vec::new();
    let list_len = 1 + 2 + name_b.len();
    sni_body.extend_from_slice(&(list_len as u16).to_be_bytes());
    sni_body.push(0x00);
    sni_body.extend_from_slice(&(name_b.len() as u16).to_be_bytes());
    sni_body.extend_from_slice(name_b);

    let mut ext = Vec::new();
    ext.extend_from_slice(&0u16.to_be_bytes()); // type SNI
    ext.extend_from_slice(&(sni_body.len() as u16).to_be_bytes());
    ext.extend_from_slice(&sni_body);
    ext
}

fn client_hello_with_sni(name: &str) -> Vec<u8> {
    hello_with_extensions(&sni_extension(name.as_bytes()))
}

#[test]
fn sni_roundtrip() {
    let rec = client_hello_with_sni("imap.gmail.com");
    assert_eq!(tls_record_needed(&rec).unwrap(), 0);
    assert_eq!(parse_sni(&rec).unwrap().as_deref(), Some("imap.gmail.com"));
    assert!(validate_tls_client_hello(&rec, "imap.gmail.com", false).is_ok());
    assert!(validate_tls_client_hello(&rec, "IMAP.GMAIL.COM.", false).is_ok());
    assert_eq!(
        validate_tls_client_hello(&rec, "evil.example", false),
        Err(ProtoError::SniMismatch)
    );
}

#[test]
fn sni_skipped_for_ip_literal() {
    let rec = client_hello_with_sni("whatever");
    assert!(validate_tls_client_hello(&rec, "8.8.8.8", true).is_ok());
}

#[test]
fn rejects_non_tls() {
    assert_eq!(tls_record_needed(b"GET /"), Err(ProtoError::NotTls));
    assert_eq!(tls_record_needed(b"SSH-2.0"), Err(ProtoError::NotTls));
}

#[test]
fn needed_grows_with_prefix() {
    let rec = client_hello_with_sni("localhost");
    assert_eq!(tls_record_needed(&[]).unwrap(), 5);
    assert!(tls_record_needed(&rec[..3]).unwrap() > 0);
    assert_eq!(tls_record_needed(&rec).unwrap(), 0);
}

#[test]
fn imap_greeting() {
    assert!(validate_greeting(b"* OK IMAP4rev1 ready\r\n", ProbeKind::ImapGreeting).is_ok());
    assert!(validate_greeting(
        b"* OK [CAPABILITY IMAP4rev1] Dovecot ready\r\n",
        ProbeKind::ImapGreeting
    )
    .is_ok());
    assert_eq!(
        validate_greeting(b"220 smtp.example.com\r\n", ProbeKind::ImapGreeting),
        Err(ProtoError::BadGreeting)
    );
    assert_eq!(
        validate_greeting(b"SSH-2.0-OpenSSH\r\n", ProbeKind::ImapGreeting),
        Err(ProtoError::BadGreeting)
    );
}

#[test]
fn smtp_greeting() {
    assert!(
        validate_greeting(b"220 mail.example.com ESMTP\r\n", ProbeKind::SmtpGreeting).is_ok()
    );
    assert!(validate_greeting(b"220-mail.example.com\r\n", ProbeKind::SmtpGreeting).is_ok());
    assert_eq!(
        validate_greeting(b"* OK IMAP\r\n", ProbeKind::SmtpGreeting),
        Err(ProtoError::BadGreeting)
    );
}

#[test]
fn greeting_complete_on_newline() {
    assert!(!greeting_complete(b"220 mail"));
    assert!(greeting_complete(b"220 mail\n"));
    assert!(greeting_complete(&vec![b'x'; 512]));
}

#[test]
fn probe_ports() {
    assert_eq!(probe_for_port(993), Some(ProbeKind::TlsSni));
    assert_eq!(probe_for_port(465), Some(ProbeKind::TlsSni));
    assert_eq!(probe_for_port(143), Some(ProbeKind::ImapGreeting));
    assert_eq!(probe_for_port(587), Some(ProbeKind::SmtpGreeting));
    assert_eq!(probe_for_port(25), None);
    assert_eq!(probe_for_port(9400), None);
}

#[test]
fn lacking_bytes_shrink_as_they_come() {
    let rec = client_hello_with_sni("mail.example");
    for n in 5..rec.len() {
        assert_eq!(tls_record_needed(&rec[..n]), Ok(rec.len() - n));
    }
    for n in 1..5 {
        assert_eq!(tls_record_needed(&rec[..n]), Ok(5 - n));
    }
    let mut more = rec.clone();
    more.push(0);
    assert_eq!(tls_record_needed(&more), Ok(0));
}

#[test]
fn bad_records_are_told_apart() {
    assert_eq!(
        tls_record_needed(&[0x16, 2, 0, 0, 1]),
        Err(ProtoError::NotTls)
    );
    assert_eq!(
        tls_record_needed(&[0x16, 3, 1, 0, 0]),
        Err(ProtoError::Malformed)
    );
    assert_eq!(
        tls_record_needed(&[0x16, 3, 1, 0x40, 1]),
        Err(ProtoError::Malformed)
    );
    assert_eq!(
        tls_record_needed(&[0x16, 3, 1, 0x40, 0]),
        Ok(16384)
    );
    assert_eq!(
        tls_record_needed(&[0x17, 2, 0, 0, 1, 9, 9]),
        Err(ProtoError::NotTls)
    );
}

#[test]
fn hello_without_a_name() {
    let rec = hello_with_extensions(&[0, 5, 0, 1, 9]);
    assert_eq!(parse_sni(&rec), Ok(None));
    assert_eq!(
        validate_tls_client_hello(&rec, "mail.example", false),
        Err(ProtoError::MissingSni)
    );
    assert_eq!(validate_tls_client_hello(&rec, "8.8.8.8", true), Ok(()));
    let mut bare = vec![3, 3];
    bare.extend_from_slice(&[0u8; 32]);
    bare.extend_from_slice(&[0, 0, 2, 0, 0x2f, 1, 0]);
    assert_eq!(parse_sni(&record_of(&bare)), Ok(None));
}

#[test]
fn name_that_is_not_utf8_is_malformed() {
    let rec = hello_with_extensions(&sni_extension(&[0xff, 0xfe]));
    assert_eq!(parse_sni(&rec), Err(ProtoError::Malformed));
    let rec = hello_with_extensions(&sni_extension(&[]));
    assert_eq!(parse_sni(&rec), Err(ProtoError::Malformed));
    let rec = hello_with_extensions(&sni_extension("b\u{fc}cher.example".as_bytes()));
    assert_eq!(
        parse_sni(&rec).unwrap().as_deref(),
        Some("b\u{fc}cher.example")
    );
}

#[test]
fn truncated_hellos_are_malformed() {
    let rec = client_hello_with_sni("mail.example");
    assert_eq!(parse_sni(&rec[..20]), Err(ProtoError::Malformed));
    assert_eq!(parse_sni(&rec[..4]), Err(ProtoError::NotTls));
    let mut not_hello = rec.clone();
    not_hello[5] = 2;
    assert_eq!(parse_sni(&not_hello), Err(ProtoError::NotTls));
    let mut long = rec.clone();
    long[8] += 1;
    assert_eq!(parse_sni(&long), Err(ProtoError::Malformed));
}

#[test]
fn proto_errors_have_names() {
    assert_eq!(ProtoError::NotTls.as_str(), "not_tls");
    assert_eq!(ProtoError::Malformed.as_str(), "malformed");
    assert_eq!(ProtoError::SniMismatch.as_str(), "sni_mismatch");
    assert_eq!(ProtoError::MissingSni.as_str(), "missing_sni");
    assert_eq!(ProtoError::BadGreeting.as_str(), "bad_greeting");
    assert_eq!(max_greeting_bytes(), 512);
}

#[test]
fn blank_lines_before_a_greeting_are_skipped() {
    assert!(validate_greeting(b"\r\n \t* OK\r\n", ProbeKind::ImapGreeting).is_ok());
    assert!(validate_greeting(b"\r\n", ProbeKind::ImapGreeting).is_err());
    assert!(validate_greeting(b"2200 x\n", ProbeKind::SmtpGreeting).is_err());
    assert!(validate_greeting(b"* OK\n", ProbeKind::TlsSni).is_err());
}

#[test]
fn tls_probe_passes_on_all_it_read() {
    let remote = parse_remote("mail.example:993").unwrap();
    let rec = client_hello_with_sni("Mail.Example");
    let mut probe = TlsProbe::new();
    let first = ProbeEvent::Client(Message::Binary(rec[..7].to_vec()));
    assert!(matches!(probe.on_event(first, &remote), ProbeStep::Wait));
    let ping = ProbeEvent::Client(Message::Ping(vec![1, 2]));
    assert!(matches!(probe.on_event(ping, &remote), ProbeStep::Pong(p) if p == vec![1, 2]));
    let pong = ProbeEvent::Client(Message::Pong(vec![]));
    assert!(matches!(probe.on_event(pong, &remote), ProbeStep::Wait));
    let rest = ProbeEvent::Client(Message::Binary(rec[7..].to_vec()));
    assert!(matches!(probe.on_event(rest, &remote), ProbeStep::Pass(all) if all == rec));
}

#[test]
fn tls_probe_rejects() {
    let remote = parse_remote("mail.example:993").unwrap();
    let bad = [
        ProbeEvent::Client(Message::Text("GET / HTTP/1.1".to_string())),
        ProbeEvent::Client(Message::Binary(client_hello_with_sni("evil.example"))),
        ProbeEvent::Client(Message::Close),
        ProbeEvent::Gone,
        ProbeEvent::TimedOut,
        ProbeEvent::Upstream(vec![1]),
    ];
    for event in bad {
        let mut probe = TlsProbe::new();
        assert!(matches!(
            probe.on_event(event, &remote),
            ProbeStep::Reject(RejectReason::Proto, None)
        ));
    }
    let mut probe = TlsProbe::new();
    assert!(matches!(
        probe.on_event(ProbeEvent::Failed, &remote),
        ProbeStep::Reject(RejectReason::Proto, Some(Error::Read))
    ));
}

#[test]
fn tls_probe_gives_up_on_long_partial_records() {
    let remote = parse_remote("mail.example:993").unwrap();
    let mut long = vec![0x16, 3, 1, 0x40, 0];
    long.resize(16384, 0);
    let mut probe = TlsProbe::new();
    let step = probe.on_event(ProbeEvent::Client(Message::Binary(long)), &remote);
    assert!(matches!(step, ProbeStep::Wait));
    let step = probe.on_event(ProbeEvent::Client(Message::Binary(vec![0])), &remote);
    assert!(matches!(step, ProbeStep::Reject(RejectReason::Proto, None)));
}

#[test]
fn greeting_probe_waits_for_a_line() {
    let mut probe = GreetingProbe::new(ProbeKind::SmtpGreeting);
    let step = probe.on_event(ProbeEvent::Upstream(b"220 mail".to_vec()));
    assert!(matches!(step, ProbeStep::Wait));
    let step = probe.on_event(ProbeEvent::Upstream(b".example\r\n".to_vec()));
    assert!(matches!(step, ProbeStep::Pass(all) if all == b"220 mail.example\r\n".to_vec()));
}

#[test]
fn greeting_probe_rejects() {
    let bad = [
        ProbeEvent::Upstream(b"* OK\n".to_vec()),
        ProbeEvent::Upstream(vec![]),
        ProbeEvent::Upstream(vec![b'x'; 512]),
        ProbeEvent::Gone,
        ProbeEvent::TimedOut,
        ProbeEvent::Client(Message::Close),
    ];
    for event in bad {
        let mut probe = GreetingProbe::new(ProbeKind::SmtpGreeting);
        assert!(matches!(probe.on_event(event), ProbeStep::Reject(RejectReason::Proto, None)));
    }
    let mut probe = GreetingProbe::new(ProbeKind::SmtpGreeting);
    assert!(matches!(
        probe.on_event(ProbeEvent::Failed),
        ProbeStep::Reject(RejectReason::Proto, Some(Error::Read))
    ));
}

#[test]
fn probe_bytes_must_be_sent() {
    assert_eq!(after_sending(Written::Done), Ok(()));
    assert_eq!(after_sending(Written::Failed), Err(RejectReason::Proto));
    assert_eq!(after_sending(Written::TimedOut), Err(RejectReason::Proto));
}

#[test]
fn rest_after_the_first_record_is_ignored() {
    let mut rec = client_hello_with_sni("mail.example");
    let name = parse_sni(&rec);
    assert_eq!(name, Ok(Some("mail.example".to_string())));
    rec.extend_from_slice(&[0x16, 0x03, 0xff, 0x00]);
    assert_eq!(tls_record_needed(&rec), Ok(0));
    assert_eq!(parse_sni(&rec), name);
    assert_eq!(validate_tls_client_hello(&rec, "mail.example", false), Ok(()));
    assert_eq!(
        validate_tls_client_hello(&rec, "other.example", false),
        Err(ProtoError::SniMismatch)
    );
}

#[test]
fn blanks_before_a_greeting_are_ignored() {
    assert_eq!(
        validate_greeting(b" \t\r\n* OK ready\r\n", ProbeKind::ImapGreeting),
        Ok(())
    );
    assert_eq!(
        validate_greeting(b"\n\n220-mail\r\n", ProbeKind::SmtpGreeting),
        Ok(())
    );
    assert_eq!(
        validate_greeting(b"\n\n221 no\r\n", ProbeKind::SmtpGreeting),
        Err(ProtoError::BadGreeting)
    );
}
