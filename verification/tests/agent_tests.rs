use openportal::agent::{check_message_domain, check_peer_domain, Peer, PeerDomain, Registrar, Type};
use openportal::agent_core::validate_agent_type;

#[test]
fn test_agent_type_typos_are_rejected_at_add_time() {
    assert_eq!(
        validate_agent_type(&Some("bridge".to_string())).ok(),
        Some(Some("bridge".to_string()))
    );

    assert_eq!(
        validate_agent_type(&Some("  BRIDGE ".to_string())).ok(),
        Some(Some("bridge".to_string()))
    );

    for bad in ["bridges", "brigde", "portal ninja", "", "Portal!"] {
        assert!(
            validate_agent_type(&Some(bad.to_string())).is_err(),
            "{:?} must be rejected",
            bad
        );
    }

    assert_eq!(validate_agent_type(&None).ok(), Some(None));
}

#[test]
fn unknown_agent_type_error_names_the_valid_values() {
    match validate_agent_type(&Some("brigde".to_string())) {
        Err(e) => assert_eq!(
            e.message(),
            "'brigde' is not a recognised agent type. Valid values are: portal, provider, platform, instance, bridge, account, filesystem, scheduler, virtual."
        ),
        Ok(t) => unreachable!("accepted {:?}", t),
    }
}

#[test]
fn agent_type_names_roundtrip() {
    for t in [
        Type::Portal,
        Type::Provider,
        Type::Platform,
        Type::Instance,
        Type::Bridge,
        Type::Account,
        Type::Filesystem,
        Type::Scheduler,
        Type::Virtual,
    ] {
        assert_eq!(Type::parse(&t.to_string()), Some(t));
    }
    assert_eq!(Type::parse(" Scheduler\n"), Some(Type::Scheduler));
    assert_eq!(Type::parse("cluster"), None);
}

#[test]
fn peers_parse_from_name_at_zone() {
    let p = match Peer::parse(" portal @ internal ") {
        Ok(p) => p,
        Err(e) => unreachable!("parse: {:?}", e),
    };
    assert_eq!(p.name(), "portal");
    assert_eq!(p.zone(), "internal");
    assert_eq!(p.to_string(), "portal@internal");
    assert!(Peer::parse("portal").is_err());
    assert!(Peer::parse("a@b@c").is_err());
    assert!(Peer::parse(" @zone").is_err());
    assert!(Peer::new("a", "b") == Peer::new("a", "b"));
    assert!(Peer::new("a", "b") != Peer::new("a", "c"));
}

#[test]
fn registered_peers_are_found_by_type() {
    let mut r = Registrar::create_null(0);
    r.register_self("me", &Type::Portal, "templemeads", "0.1.0", false, 5);
    assert_eq!(r.name(), "me");
    assert_eq!(r.start_time(), 5);
    assert_eq!(r.my_agent_type(), Type::Portal);

    let p = Peer::new("test", "default");
    r.register_peer(&p, &Type::Portal, "templemeads", "0.1.0", None, None);
    assert_eq!(r.agents(&Type::Portal), vec![Peer::new("test", "default")]);
    assert_eq!(r.portal(), Some(Peer::new("test", "default")));
    assert_eq!(r.account(), None);
    assert_eq!(r.agent_type(&p), Some(Type::Portal));

    // a virtual registration never overwrites a real one
    r.register_peer(&p, &Type::Virtual, "templemeads", "0.1.0", None, None);
    assert_eq!(r.agent_type(&p), Some(Type::Portal));

    // a real re-registration moves the peer to its new type
    r.register_peer(&p, &Type::Account, "templemeads", "0.1.0", None, None);
    assert_eq!(r.agent_type(&p), Some(Type::Account));
    assert!(r.agents(&Type::Portal).is_empty());
    assert_eq!(r.account(), Some(Peer::new("test", "default")));

    r.remove(&p);
    assert_eq!(r.agent_type(&p), None);
    assert!(!r.contains(&p));
}

#[test]
fn registrar_lists_and_finds_peers() {
    use_registrar();
}

fn use_registrar() {
    let mut r = Registrar::create_null(0);
    r.register_self("me", &Type::Instance, "templemeads", "1.2.3", true, 7);
    assert!(r.should_cascade_health());
    assert_eq!(r.engine(), "templemeads");
    assert_eq!(r.version(), "1.2.3");
    let a = Peer::new("alpha", "z1");
    let b = Peer::new("beta", "z2");
    let v = Peer::new("ghost", "z3");
    r.register_peer(&a, &Type::Portal, "templemeads", "1", Some("greatwestern"), Some("0.2"));
    r.register_peer(&b, &Type::Scheduler, "templemeads", "1", None, None);
    r.register_peer(&v, &Type::Virtual, "templemeads", "1", None, None);
    assert_eq!(r.all_peers(), vec![a.clone(), b.clone(), v.clone()]);
    assert_eq!(r.real_peers(), vec![a.clone(), b.clone()]);
    assert_eq!(r.scheduler(), Some(b.clone()));
    assert_eq!(r.bridge(), None);
    assert_eq!(r.filesystem(), None);
    assert_eq!(r.first_of(&Type::Portal), Some(a.clone()));
    assert!(r.has_virtual(&v));
    assert!(r.is_virtual(&v));
    assert!(!r.is_virtual(&a));
    assert!(r.is_virtual(&Peer::new("me", "anywhere")));
    assert!(r.is_self(&Peer::new("me", "z9")));
    assert_eq!(r.get_self(None), Peer::new("me", "local"));
    assert_eq!(r.get_self(Some("z1")), Peer::new("me", "z1"));
    assert_eq!(r.find("beta"), Some(b.clone()));
    assert_eq!(r.find("nobody"), None);
    let d = r.peer_domain(&a).map(|d| (d.name, d.version));
    assert_eq!(d, Some(("greatwestern".to_string(), "0.2".to_string())));
    assert!(r.peer_domain(&b).is_none());
    assert!(r.contains(&a));
}

#[test]
fn peers_must_speak_this_agents_domain() {
    let p = Peer::new("alpha", "z1");
    let same = PeerDomain { name: "gw".to_string(), version: "1".to_string() };
    let router = PeerDomain { name: "erased".to_string(), version: "1".to_string() };
    let other = PeerDomain { name: "other".to_string(), version: "2".to_string() };
    assert!(check_peer_domain(&p, "gw", Some(&same)).is_ok());
    assert!(check_peer_domain(&p, "gw", Some(&router)).is_ok());
    match check_peer_domain(&p, "gw", Some(&other)) {
        Err(e) => assert_eq!(
            e.message(),
            "Peer alpha@z1 speaks domain 'other' (version 2), but this agent speaks 'gw' - disconnecting"
        ),
        Ok(()) => unreachable!("another domain must be refused"),
    }
    match check_peer_domain(&p, "gw", None) {
        Err(e) => assert_eq!(
            e.message(),
            "Peer alpha@z1 did not report a domain (and none could be assumed for it) - this agent speaks 'gw' - disconnecting"
        ),
        Ok(()) => unreachable!("no domain must be refused"),
    }
    assert!(check_message_domain("Job", "1", "gw", Some("gw"), None).is_ok());
    assert!(check_message_domain("Job", "1", "gw", None, Some(&same)).is_ok());
    match check_message_domain("Job", "42", "gw", None, None) {
        Err(e) => assert_eq!(
            e.message(),
            "Job 42 has domain 'unknown', but this agent speaks 'gw'"
        ),
        Ok(()) => unreachable!("an unknown domain must be refused"),
    }
    match check_message_domain("Notification", "7", "gw", Some("x"), Some(&same)) {
        Err(e) => assert_eq!(
            e.message(),
            "Notification 7 has domain 'x', but this agent speaks 'gw'"
        ),
        Ok(()) => unreachable!("another domain must be refused"),
    }
}
