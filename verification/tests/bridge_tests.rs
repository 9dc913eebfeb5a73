use openportal::bridge_server::{
    begin_verification, constant_time_eq, finish_verification, forwarded_ip, resolve_client_ip,
    signing_text, v1_call_string, v2_call_string, ClientAddr, ForwardedEntry, Header, NonceStore,
    Defaults, RateLimiter, SignatureVersion, MAX_RATE_LIMIT_ENTRIES,
};

#[test]
fn test_v2_canonical_string_is_length_prefixed_and_fixed_arity() {
    let with_nonce = v2_call_string(
        "post",
        "Mon, 03 Aug 2026 12:00:00 GMT",
        "run",
        "{}",
        Some("abc"),
    );
    let without = v2_call_string("post", "Mon, 03 Aug 2026 12:00:00 GMT", "run", "{}", None);

    assert_eq!(with_nonce.split('\n').count(), 7);
    assert_eq!(without.split('\n').count(), 7);

    assert!(with_nonce.starts_with("17:openportal-sig-v2\n"));
    assert!(with_nonce.ends_with("\n3:abc"));
    assert!(without.ends_with("\n0:"));

    let sneaky = v2_call_string("post", "d", "run", "a\n3:xyz", Some("abc"));
    assert_eq!(sneaky.split('\n').count(), 8);
    assert!(
        sneaky.contains("7:a\n3:xyz"),
        "body must carry its own length"
    );
}

#[test]
fn test_signature_version_defaults_to_v1_and_rejects_anything_unknown() {
    assert_eq!(
        SignatureVersion::from_header_value(None).ok(),
        Some(SignatureVersion::V1)
    );

    for (value, expected) in [("1", SignatureVersion::V1), ("2", SignatureVersion::V2)] {
        assert_eq!(
            SignatureVersion::from_header_value(Some(value.as_bytes())).ok(),
            Some(expected)
        );
    }

    for bad in ["0", "3", "", "2.0", "two", "v2"] {
        assert!(
            SignatureVersion::from_header_value(Some(bad.as_bytes())).is_err(),
            "{:?} must be rejected rather than treated as V1",
            bad
        );
    }
}

#[test]
fn test_v2_signing_removes_the_nonce_folding_ambiguity() {
    let date: i64 = 1_785_758_400;
    let body = br#"{"command":"waldur.provider get_offerings"}"#;
    let nonce = "unique-nonce-abc123";
    let folded = format!("{}\n{}", String::from_utf8_lossy(body), nonce);

    let sign = |b: &[u8], n: Option<&str>, v| {
        signing_text(date, "post", "run", b, n, v).unwrap_or_else(|e| unreachable!("sign: {:?}", e))
    };

    assert_eq!(
        sign(body, Some(nonce), SignatureVersion::V1),
        sign(folded.as_bytes(), None, SignatureVersion::V1),
    );
    assert_ne!(
        sign(body, Some(nonce), SignatureVersion::V2),
        sign(folded.as_bytes(), None, SignatureVersion::V2),
    );
    assert_ne!(
        sign(body, Some(nonce), SignatureVersion::V1),
        sign(body, Some(nonce), SignatureVersion::V2)
    );
    assert_ne!(
        sign(b"", Some(nonce), SignatureVersion::V2),
        sign(nonce.as_bytes(), None, SignatureVersion::V2)
    );
}

#[test]
fn signature_version_header_values() {
    assert_eq!(SignatureVersion::V1.as_header_value(), "1");
    assert_eq!(SignatureVersion::V2.as_header_value(), "2");
}

#[test]
fn v1_call_string_has_four_shapes() {
    assert_eq!(
        v1_call_string("get", "D", "health", "", None),
        "get\napplication/json\nD\nhealth"
    );
    assert_eq!(
        v1_call_string("get", "D", "health", "", Some("n")),
        "get\napplication/json\nD\nhealth\nn"
    );
    assert_eq!(
        v1_call_string("post", "D", "run", "{}", None),
        "post\napplication/json\nD\nrun\n{}"
    );
    assert_eq!(
        v1_call_string("post", "D", "run", "{}", Some("n")),
        "post\napplication/json\nD\nrun\n{}\nn"
    );
}

#[test]
fn v2_call_string_exact_text() {
    assert_eq!(
        v2_call_string("post", "Mon, 03 Aug 2026 12:00:00 GMT", "run", "{}", Some("abc")),
        "17:openportal-sig-v2\n4:post\n16:application/json\n29:Mon, 03 Aug 2026 12:00:00 GMT\n3:run\n2:{}\n3:abc"
    );
    // lengths are counted in bytes, not characters
    assert!(v2_call_string("p", "d", "f", "é", None).contains("\n2:é\n"));
}

#[test]
fn signing_text_formats_the_date_and_checks_the_body() {
    let text = signing_text(1_785_758_400, "get", "health", b"", None, SignatureVersion::V1)
        .unwrap_or_else(|e| unreachable!("sign: {:?}", e));
    assert_eq!(
        text,
        "get\napplication/json\nMon, 03 Aug 2026 12:00:00 GMT\nhealth"
    );
    let bad = signing_text(0, "post", "run", &[0xff, 0xfe], None, SignatureVersion::V2);
    match bad {
        Err(e) => assert_eq!(e.message(), "Could not parse body as UTF-8 for signing"),
        Ok(t) => unreachable!("signed {:?}", t),
    }
}

#[test]
fn rate_limiter_refuses_after_the_limit_until_the_window_rolls() {
    let second: i64 = 1_000_000_000;
    let mut limiter = RateLimiter::new(2, 10);
    let ip = ClientAddr::V4(0x7f000001);
    assert!(limiter.check_rate_limit(ip, 0).is_ok());
    assert!(limiter.check_rate_limit(ip, second).is_ok());
    match limiter.check_rate_limit(ip, 2 * second) {
        Err(e) => {
            assert_eq!(e.status, Some(429));
            assert_eq!(e.message, "Rate limit exceeded");
        }
        Ok(()) => unreachable!("the third request must be refused"),
    }
    // another address has its own window
    assert!(limiter.check_rate_limit(ClientAddr::V6(1), 2 * second).is_ok());
    // the window is measured from its first request
    assert!(limiter.check_rate_limit(ip, 10 * second).is_err());
    assert!(limiter.check_rate_limit(ip, 10 * second + 1).is_ok());
}

#[test]
fn rate_limiter_refuses_new_addresses_when_full_of_live_ones() {
    let mut limiter = RateLimiter::new(10, 10);
    for i in 0..MAX_RATE_LIMIT_ENTRIES as u32 {
        assert!(limiter.check_rate_limit(ClientAddr::V4(i), 0).is_ok());
    }
    match limiter.check_rate_limit(ClientAddr::V4(u32::MAX), 1) {
        Err(e) => {
            assert_eq!(e.status, Some(429));
            assert_eq!(e.message, "Too many distinct clients");
        }
        Ok(()) => unreachable!("a full table must refuse a new address"),
    }
    // a known address is still served
    assert!(limiter.check_rate_limit(ClientAddr::V4(0), 1).is_ok());
    // once the windows are old enough they are pruned, making room
    let later: i64 = 21_000_000_000;
    assert!(limiter.check_rate_limit(ClientAddr::V4(u32::MAX), later).is_ok());
}

#[test]
fn nonce_store_refuses_replays_within_the_ttl() {
    let second: i64 = 1_000_000_000;
    let mut store = NonceStore::new();
    assert!(store.record_nonce("n1", 0).is_ok());
    match store.record_nonce("n1", 29 * second) {
        Err(e) => {
            assert_eq!(e.status, Some(401));
            assert_eq!(e.message, "Nonce has already been used (replay attack)");
        }
        Ok(()) => unreachable!("a replay must be refused"),
    }
    assert!(store.record_nonce("n2", 29 * second).is_ok());
    assert!(store.record_nonce("n1", 30 * second).is_ok());
    assert!(store.record_nonce("n1", 31 * second).is_err());
}

#[test]
fn constant_time_eq_compares_bytes() {
    assert!(constant_time_eq(b"abc", b"abc"));
    assert!(!constant_time_eq(b"abc", b"abd"));
    assert!(!constant_time_eq(b"abc", b"ab"));
    assert!(constant_time_eq(b"", b""));
}

#[test]
fn test_forwarded_ip_takes_rightmost_untrusted_xff_entry() {
    let client = ClientAddr::V4(0xcb00_7107);
    let proxy = ClientAddr::V4(0x7f00_0001);
    let spoofed = ClientAddr::V4(0x0101_0101);
    // <spoofed>, <client>, <proxy>: the proxy is trusted, so the client is read
    let entries = vec![
        ForwardedEntry::Address(spoofed, false),
        ForwardedEntry::Address(client, false),
        ForwardedEntry::Address(proxy, true),
    ];
    assert_eq!(forwarded_ip(Some(&entries), None), Some(client));
    // an unparseable entry stops the walk, falling back to X-Real-IP
    let entries = vec![
        ForwardedEntry::Address(spoofed, false),
        ForwardedEntry::Unparseable,
        ForwardedEntry::Address(proxy, true),
    ];
    assert_eq!(forwarded_ip(Some(&entries), Some(client)), Some(client));
    assert_eq!(forwarded_ip(Some(&entries), None), None);
    assert_eq!(forwarded_ip(None, Some(client)), Some(client));
}

#[test]
fn test_forwarded_ip_cannot_be_spoofed_by_prepending_entries() {
    let client = ClientAddr::V4(0xcb00_7107);
    for spoofed in [ClientAddr::V4(1), ClientAddr::V4(2), ClientAddr::V6(3)] {
        let entries = vec![
            ForwardedEntry::Address(spoofed, false),
            ForwardedEntry::Address(client, false),
        ];
        assert_eq!(forwarded_ip(Some(&entries), None), Some(client));
    }
}

#[test]
fn resolved_ip_trusts_only_trusted_peers() {
    let peer = ClientAddr::V4(0x7f00_0001);
    let client = ClientAddr::V4(0x0a00_0001);
    let entries = vec![ForwardedEntry::Address(client, false)];
    assert_eq!(resolve_client_ip(peer, false, Some(&entries), None), peer);
    assert_eq!(resolve_client_ip(peer, true, Some(&entries), None), client);
    assert_eq!(resolve_client_ip(peer, true, None, None), peer);
}

#[test]
fn request_verification_end_to_end() {
    let second: i64 = 1_000_000_000;
    let now: i64 = 1_785_758_400 * second;
    let date = "Mon, 03 Aug 2026 12:00:00 GMT";
    let mut limiter = RateLimiter::new(100, 10);
    let mut store = NonceStore::new();
    let ip = Some(ClientAddr::V4(1));
    let pending = begin_verification(
        &mut limiter,
        b"{}",
        ip,
        Header::Text("OpenPortal sig".to_string()),
        Header::Text(date.to_string()),
        Header::Text("n-1".to_string()),
        Some(b"2"),
        "post",
        "run",
        now,
    );
    let pending = match pending {
        Ok(p) => p,
        Err(e) => unreachable!("headers: {:?}", e),
    };
    assert_eq!(
        pending.signing_text,
        v2_call_string("post", date, "run", "{}", Some("n-1"))
    );
    assert!(finish_verification(&pending, "OpenPortal other", &mut store).is_err());
    assert!(finish_verification(&pending, "OpenPortal sig", &mut store).is_ok());
    // the same nonce again is a replay
    match finish_verification(&pending, "OpenPortal sig", &mut store) {
        Err(e) => assert_eq!(e.status, Some(401)),
        Ok(()) => unreachable!("a replay must be refused"),
    }
}

#[test]
fn request_verification_refusals() {
    let second: i64 = 1_000_000_000;
    let now: i64 = 1_785_758_400 * second;
    let date = "Mon, 03 Aug 2026 12:00:00 GMT";
    let mut limiter = RateLimiter::new(100, 10);
    let ip = Some(ClientAddr::V4(1));
    let status = |r: Result<openportal::bridge_server::PendingCheck, openportal::bridge_server::AppError>| match r {
        Err(e) => (e.status, e.message),
        Ok(p) => unreachable!("accepted {:?}", p),
    };
    let run = |limiter: &mut RateLimiter, body: &[u8], ip, auth, d, v: Option<&[u8]>, when| {
        begin_verification(limiter, body, ip, auth, d, Header::Absent, v, "get", "health", when)
    };
    assert_eq!(
        status(run(&mut limiter, &[0xff], ip, Header::Absent, Header::Absent, None, now)),
        (Some(400), "Request body must be valid UTF-8".to_string())
    );
    assert_eq!(
        status(run(&mut limiter, b"", None, Header::Absent, Header::Absent, None, now)),
        (Some(500), "Could not determine the client address".to_string())
    );
    assert_eq!(
        status(run(&mut limiter, b"", ip, Header::Absent, Header::Absent, None, now)),
        (Some(401), "No API key in headers".to_string())
    );
    assert_eq!(
        status(run(&mut limiter, b"", ip, Header::Unreadable, Header::Absent, None, now)),
        (Some(401), "No date in headers".to_string())
    );
    assert_eq!(
        status(run(&mut limiter, b"", ip, Header::Unreadable, Header::Unreadable, None, now)),
        (Some(401), "Could not parse date".to_string())
    );
    assert_eq!(
        status(run(
            &mut limiter,
            b"",
            ip,
            Header::Unreadable,
            Header::Text("yesterday".to_string()),
            None,
            now
        )),
        (Some(401), "Could not parse date".to_string())
    );
    assert_eq!(
        status(run(
            &mut limiter,
            b"",
            ip,
            Header::Unreadable,
            Header::Text(date.to_string()),
            None,
            now + 6 * second
        )),
        (Some(401), "Date is outside acceptable time window".to_string())
    );
    assert_eq!(
        status(run(
            &mut limiter,
            b"",
            ip,
            Header::Unreadable,
            Header::Text(date.to_string()),
            Some(b"3"),
            now + 5 * second
        )),
        (Some(400), "Unrecognised signature version".to_string())
    );
    let ok = run(
        &mut limiter,
        b"",
        ip,
        Header::Unreadable,
        Header::Text(date.to_string()),
        None,
        now - 5 * second,
    );
    match ok {
        Ok(p) => {
            assert_eq!(p.authorization, "");
            assert!(p.nonce.is_none());
            assert_eq!(p.signing_text, v1_call_string("get", date, "health", "", None));
        }
        Err(e) => unreachable!("refused {:?}", e),
    }
}

#[test]
fn bridge_settings_fall_back_to_their_defaults() {
    let d = Defaults::parse(None, None, None, None, None);
    assert_eq!(d.url(), "http://localhost:8042");
    assert_eq!(d.ip(), "127.0.0.1");
    assert_eq!(d.port(), 8042);
    assert_eq!(d.signal_url(), "http://localhost/signal");
    assert_eq!(d.notification_url(), "http://localhost/notification");

    let e = Defaults::parse(
        Some("https://bridge.example".to_string()),
        Some("0.0.0.0".to_string()),
        Some(9000),
        None,
        Some("https://n.example".to_string()),
    );
    assert_eq!((e.url(), e.ip(), e.port()), ("https://bridge.example".to_string(), "0.0.0.0".to_string(), 9000));
    assert_eq!(e.notification_url(), "https://n.example");
}

#[test]
fn windows_two_lengths_old_are_forgotten() {
    let ip = ClientAddr::V4(0x0a000001);
    let mut limiter = RateLimiter::new(1, 10);
    assert!(limiter.check_rate_limit(ip, 0).is_ok());
    assert!(limiter.check_rate_limit(ip, 1).is_err());
    // a cleanup within two window lengths keeps the spent window
    limiter.cleanup_old_entries(15_000_000_000);
    assert!(limiter.check_rate_limit(ip, 2).is_err());
    // one after forgets it, so the address starts afresh
    limiter.cleanup_old_entries(25_000_000_000);
    assert!(limiter.check_rate_limit(ip, 3).is_ok());
}
