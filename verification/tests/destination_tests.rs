use openportal::destination::{Destination, Destinations, Position};

fn parsed(s: &str) -> Destination {
    match Destination::parse(s) {
        Ok(d) => d,
        Err(e) => unreachable!("parse: {:?}", e),
    }
}

#[test]
fn test_destination_agent_names_cannot_contain_whitespace() {
    assert!(Destination::parse("portal.provider.cluster").is_ok());

    for bad in [
        "a b.aip1.brics",
        "aip1.a b.brics",
        "aip1.brics extra",
        "aip1.brics\tx",
        "aip1.brics\nx",
    ] {
        assert!(
            Destination::parse(bad).is_err(),
            "{:?} must be rejected as a destination",
            bad
        );
    }
}

#[test]
fn test_position_requires_the_sender_to_be_adjacent() {
    let d = parsed("portal.provider.clusters.cluster");

    assert_eq!(d.position("provider", "portal"), Position::Downstream);
    assert_eq!(d.position("clusters", "provider"), Position::Downstream);
    assert_eq!(d.position("cluster", "clusters"), Position::Destination);

    assert_eq!(d.position("clusters", "cluster"), Position::Upstream);
    assert_eq!(d.position("provider", "clusters"), Position::Upstream);
    assert_eq!(d.position("portal", "provider"), Position::Upstream);

    assert_eq!(d.position("clusters", "portal"), Position::Error);
    assert_eq!(d.position("cluster", "portal"), Position::Error);
    assert_eq!(d.position("cluster", "provider"), Position::Error);
    assert_eq!(d.position("portal", "cluster"), Position::Error);
    assert_eq!(d.position("portal", "clusters"), Position::Error);

    assert_eq!(d.position("cluster", "attacker"), Position::Error);
    assert_eq!(d.position("attacker", "clusters"), Position::Error);
    assert_eq!(d.position("clusters", "clusters"), Position::Error);
}

#[test]
fn test_position_accepts_every_real_flow_shape() {
    let d = parsed("brics.isambard.aip2.cluster1");
    assert_eq!(d.position("isambard", "brics"), Position::Downstream);
    assert_eq!(d.position("aip2", "isambard"), Position::Downstream);
    assert_eq!(d.position("cluster1", "aip2"), Position::Destination);

    let d = parsed("portal.cluster");
    assert_eq!(d.position("cluster", "portal"), Position::Destination);
    assert_eq!(d.position("portal", "cluster"), Position::Upstream);

    let d = parsed("bridge.portal");
    assert_eq!(d.position("portal", "bridge"), Position::Destination);
    assert_eq!(d.position("bridge", "portal"), Position::Upstream);

    let d = parsed("cluster.freeipa");
    assert_eq!(d.position("freeipa", "cluster"), Position::Destination);
    assert_eq!(d.position("cluster", "freeipa"), Position::Upstream);

    let d = parsed("delegator.instance");
    assert_eq!(d.position("instance", "delegator"), Position::Destination);

    let d = parsed("resource.localportal.remoteportal");
    assert_eq!(d.position("localportal", "resource"), Position::Downstream);
    assert_eq!(
        d.position("remoteportal", "localportal"),
        Position::Destination
    );
}

#[test]
fn test_position_on_a_self_referential_path() {
    let d = parsed("a.b.b.c");
    assert_eq!(d.position("b", "b"), Position::Error);

    let d = parsed("a.b.a.b.c");
    assert_eq!(d.position("b", "a"), Position::Downstream);
    assert_eq!(d.position("a", "b"), Position::Upstream);
    assert_eq!(d.position("c", "a"), Position::Error);
}

#[test]
fn test_destination_new() {
    let destination = parsed("a.b.c");
    assert_eq!(destination.agents(), vec!["a", "b", "c"]);
}

#[test]
fn test_destination_position() {
    let destination = parsed("a.b.c");
    assert_eq!(destination.position("a", ""), Position::Error);
    assert_eq!(destination.position("b", "a"), Position::Downstream);
    assert_eq!(destination.position("c", "b"), Position::Destination);
    assert_eq!(destination.position("a", "b"), Position::Upstream);
    assert_eq!(destination.position("b", "c"), Position::Upstream);
    assert_eq!(destination.position("c", "a"), Position::Error);
    assert_eq!(destination.position("c", "d"), Position::Error);
    assert_eq!(destination.position("d", "c"), Position::Error);
}

#[test]
fn test_destination_next() {
    let destination = parsed("a.b.c");
    assert_eq!(destination.next("a"), Some("b".to_string()));
    assert_eq!(destination.next("b"), Some("c".to_string()));
    assert_eq!(destination.next("c"), None);
}

#[test]
fn test_destination_previous() {
    let destination = parsed("a.b.c");
    assert_eq!(destination.previous("a"), None);
    assert_eq!(destination.previous("b"), Some("a".to_string()));
    assert_eq!(destination.previous("c"), Some("b".to_string()));
}

#[test]
fn test_destination_display() {
    let destination = parsed("a.b.c");
    assert_eq!(destination.to_string(), "a.b.c");
}

#[test]
fn destination_text_roundtrips_through_parse() {
    for s in ["a.b", "portal.provider.cluster", "x.y.z.w"] {
        assert_eq!(parsed(s).to_string(), s);
    }
    // empty pieces are dropped when reading
    assert_eq!(parsed("a..b.").to_string(), "a.b");
}

#[test]
fn destination_needs_two_agents() {
    assert!(Destination::parse("single").is_err());
    assert!(Destination::parse("").is_err());
    assert!(Destination::parse("...").is_err());
}

#[test]
fn destination_ends_and_reverse() {
    let d = parsed("a.b.c");
    assert_eq!(d.first(), "a");
    assert_eq!(d.second(), "b");
    assert_eq!(d.last(), "c");
    assert_eq!(d.reverse().to_string(), "c.b.a");
    assert_eq!(d.reverse().reverse().to_string(), "a.b.c");
}

#[test]
fn next_then_previous_comes_back() {
    let d = parsed("a.b.c.d");
    for agent in ["a", "b", "c"] {
        let next = d.next(agent).unwrap_or_default();
        assert_eq!(d.previous(&next), Some(agent.to_string()));
    }
}

#[test]
fn destinations_parse_trim_and_dedup() {
    let ds = match Destinations::parse("[a.b, c.d , a.b]") {
        Ok(d) => d,
        Err(e) => unreachable!("parse: {:?}", e),
    };
    assert_eq!(ds.len(), 2);
    assert_eq!(ds.to_string(), "[a.b, c.d]");
    assert!(Destinations::parse("[a.b, nodot]").is_err());
    let empty = match Destinations::parse("[]") {
        Ok(d) => d,
        Err(e) => unreachable!("parse: {:?}", e),
    };
    assert!(empty.is_empty());
}

#[test]
fn destinations_add_and_remove() {
    let first = match Destinations::parse("a.b, c.d") {
        Ok(d) => d,
        Err(e) => unreachable!("parse: {:?}", e),
    };
    let second = match Destinations::parse("c.d, e.f") {
        Ok(d) => d,
        Err(e) => unreachable!("parse: {:?}", e),
    };
    let both = first.add(second.clone());
    assert_eq!(both.to_string(), "[a.b, c.d, e.f]");
    let left = both.remove(second);
    assert_eq!(left.to_string(), "a.b");
    assert_eq!(left.get(0).map(|d| d.to_string()), Some("a.b".to_string()));
    assert!(left.get(1).is_none());
}
