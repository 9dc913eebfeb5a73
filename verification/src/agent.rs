use vstd::prelude::*;
use vstd::string::*;

use crate::error::Error;
use crate::text::{
    chars_of, first_index, lemma_first_index, lemma_split_len, lower, push_chars, push_str, split,
    split_chars, string_of, to_ascii_lowercase, trim, trim_chars, views,
};

verus! {

broadcast use vstd::string::group_string_axioms;

/// The role an agent plays in the hierarchy.
#[derive(Clone, Copy, Debug, PartialEq, Eq, Hash, Structural)]
pub enum Type {
    Portal,
    Provider,
    Platform,
    Instance,
    Bridge,
    Account,
    Filesystem,
    Scheduler,
    Virtual,
}

/// The name a type is written as.
pub open spec fn kind_name(t: Type) -> Seq<char> {
    match t {
        Type::Portal => "portal"@,
        Type::Provider => "provider"@,
        Type::Platform => "platform"@,
        Type::Instance => "instance"@,
        Type::Bridge => "bridge"@,
        Type::Account => "account"@,
        Type::Filesystem => "filesystem"@,
        Type::Scheduler => "scheduler"@,
        Type::Virtual => "virtual"@,
    }
}

/// The position of a type in the list of types (declaration order).
pub open spec fn type_index(t: Type) -> int {
    match t {
        Type::Portal => 0,
        Type::Provider => 1,
        Type::Platform => 2,
        Type::Instance => 3,
        Type::Bridge => 4,
        Type::Account => 5,
        Type::Filesystem => 6,
        Type::Scheduler => 7,
        Type::Virtual => 8,
    }
}

/// Whether the characters of `v` are exactly those of `s`.
pub fn chars_eq(v: &Vec<char>, s: &str) -> (r: bool)
    ensures
        r == (v@ == s@),
{
    let w = chars_of(s);
    if v.len() != w.len() {
        return false;
    }
    let mut i: usize = 0;
    while i < v.len()
        invariant
            i <= v.len(),
            v.len() == w.len(),
            w@ == s@,
            forall|j: int| 0 <= j < i ==> v@[j] == w@[j],
        decreases v.len() - i,
    {
        if v[i] != w[i] {
            return false;
        }
        i = i + 1;
    }
    assert(v@ =~= w@);
    true
}

impl Type {
    fn index(&self) -> (r: usize)
        ensures
            r == type_index(*self),
            r < 9,
    {
        match self {
            Type::Portal => 0,
            Type::Provider => 1,
            Type::Platform => 2,
            Type::Instance => 3,
            Type::Bridge => 4,
            Type::Account => 5,
            Type::Filesystem => 6,
            Type::Scheduler => 7,
            Type::Virtual => 8,
        }
    }

    /// The name the type is written as, such as `portal`.
    pub fn name(&self) -> (r: &'static str)
        ensures
            r@ == kind_name(*self),
    {
        match self {
            Type::Portal => "portal",
            Type::Provider => "provider",
            Type::Platform => "platform",
            Type::Instance => "instance",
            Type::Bridge => "bridge",
            Type::Account => "account",
            Type::Filesystem => "filesystem",
            Type::Scheduler => "scheduler",
            Type::Virtual => "virtual",
        }
    }

    /// The name the type is written as, as an owned string.
    pub fn to_string(&self) -> (r: String)
        ensures
            r@ == kind_name(*self),
    {
        String::from_str(self.name())
    }

    /// Read a type from its name, ignoring surrounding whitespace and the case
    /// of ASCII letters. Anything else is not a type.
    pub fn parse(s: &str) -> (r: Option<Type>)
        ensures
            r matches Some(t) ==> kind_name(t) == lower(trim(s@)),
            r is None ==> forall|t: Type| kind_name(t) != lower(trim(s@)),
    {
        let v = to_ascii_lowercase(&trim_chars(&chars_of(s)));
        if chars_eq(&v, "portal") {
            Some(Type::Portal)
        } else if chars_eq(&v, "provider") {
            Some(Type::Provider)
        } else if chars_eq(&v, "platform") {
            Some(Type::Platform)
        } else if chars_eq(&v, "instance") {
            Some(Type::Instance)
        } else if chars_eq(&v, "bridge") {
            Some(Type::Bridge)
        } else if chars_eq(&v, "account") {
            Some(Type::Account)
        } else if chars_eq(&v, "filesystem") {
            Some(Type::Filesystem)
        } else if chars_eq(&v, "scheduler") {
            Some(Type::Scheduler)
        } else if chars_eq(&v, "virtual") {
            Some(Type::Virtual)
        } else {
            assert forall|t: Type| kind_name(t) != lower(trim(s@)) by {
                match t {
                    Type::Portal => {},
                    Type::Provider => {},
                    Type::Platform => {},
                    Type::Instance => {},
                    Type::Bridge => {},
                    Type::Account => {},
                    Type::Filesystem => {},
                    Type::Scheduler => {},
                    Type::Virtual => {},
                }
            }
            None
        }
    }
}

/// Writing a type out and reading it back gives the same type.
pub proof fn law_kind_name_roundtrip(t: Type, u: Type)
    ensures
        lower(trim(kind_name(t))) == kind_name(t),
        kind_name(t) == kind_name(u) ==> t == u,
{
    reveal_strlit("portal");
    reveal_strlit("provider");
    reveal_strlit("platform");
    reveal_strlit("instance");
    reveal_strlit("bridge");
    reveal_strlit("account");
    reveal_strlit("filesystem");
    reveal_strlit("scheduler");
    reveal_strlit("virtual");
    let n = kind_name(t);
    assert(trim(n) == n) by {
        assert(!crate::text::is_ws(n[0]));
        assert(crate::text::trim_start(n) == n);
        assert(!crate::text::is_ws(n.last()));
    }
    assert(lower(n) =~= n);
}

} // verus!

verus! {

/// An agent as seen from here: its name and the zone it connects from.
#[derive(Debug)]
pub struct Peer {
    name: String,
    zone: String,
}

/// The view of a peer: its name and its zone.
pub type PeerView = (Seq<char>, Seq<char>);

impl View for Peer {
    type V = PeerView;

    closed spec fn view(&self) -> PeerView {
        (self.name@, self.zone@)
    }
}

impl Clone for Peer {
    fn clone(&self) -> (r: Self)
        ensures
            r@ == self@,
    {
        Peer { name: self.name.clone(), zone: self.zone.clone() }
    }
}

/// The peer `parse` reads out of `s`: the two trimmed halves around the one
/// `@`, when there is exactly one and neither half is blank.
pub open spec fn peer_of(s: Seq<char>) -> Option<PeerView> {
    let parts = split(s, '@');
    if parts.len() == 2 && trim(parts[0]).len() > 0 && trim(parts[1]).len() > 0 {
        Some((trim(parts[0]), trim(parts[1])))
    } else {
        None
    }
}

impl Peer {
    /// The peer called `name` in `zone`.
    pub fn new(name: &str, zone: &str) -> (r: Peer)
        ensures
            r@ == (name@, zone@),
    {
        Peer { name: String::from_str(name), zone: String::from_str(zone) }
    }

    /// Read a peer written `name@zone`.
    pub fn parse(name: &str) -> (r: Result<Peer, Error>)
        ensures
            r is Ok <==> peer_of(name@) is Some,
            r matches Ok(p) ==> p@ == peer_of(name@)->0,
            r matches Err(e) ==> e matches Error::InvalidPeer(m) && m@ == name@,
    {
        let parts = split_chars(&chars_of(name), '@');
        proof {
            lemma_split_len(name@, '@');
        }
        if parts.len() != 2 {
            return Err(Error::InvalidPeer(String::from_str(name)));
        }
        let ghost ps = views(parts@);
        assert(ps[0] == parts@[0]@ && ps[1] == parts@[1]@);
        let peer_name = trim_chars(&parts[0]);
        let peer_zone = trim_chars(&parts[1]);
        if peer_name.len() == 0 || peer_zone.len() == 0 {
            return Err(Error::InvalidPeer(String::from_str(name)));
        }
        Ok(Peer { name: string_of(&peer_name), zone: string_of(&peer_zone) })
    }

    /// The peer's name.
    pub fn name(&self) -> (r: &str)
        ensures
            r@ == self@.0,
    {
        self.name.as_str()
    }

    /// The zone the peer connects from.
    pub fn zone(&self) -> (r: &str)
        ensures
            r@ == self@.1,
    {
        self.zone.as_str()
    }

    /// The peer written `name@zone`.
    pub fn to_string(&self) -> (r: String)
        ensures
            r@ == self@.0 + seq!['@'] + self@.1,
    {
        let mut v: Vec<char> = Vec::new();
        push_str(&mut v, self.name.as_str());
        v.push('@');
        push_str(&mut v, self.zone.as_str());
        string_of(&v)
    }

    /// Whether the two peers have the same name and zone.
    pub fn same(&self, other: &Peer) -> (r: bool)
        ensures
            r == (self@ == other@),
    {
        self.name == other.name && self.zone == other.zone
    }
}

impl PartialEq for Peer {
    fn eq(&self, other: &Peer) -> (r: bool) {
        self.same(other)
    }
}

impl vstd::std_specs::cmp::PartialEqSpecImpl for Peer {
    open spec fn obeys_eq_spec() -> bool {
        true
    }

    open spec fn eq_spec(&self, other: &Peer) -> bool {
        self@ == other@
    }
}

/// The view of a peer that `parse` would read back unchanged: a name and a
/// zone that are non-blank, hold no `@`, and have no surrounding whitespace.
pub open spec fn well_written_peer(p: PeerView) -> bool {
    &&& p.0.len() > 0
    &&& p.1.len() > 0
    &&& !p.0.contains('@')
    &&& !p.1.contains('@')
    &&& trim(p.0) == p.0
    &&& trim(p.1) == p.1
}

/// Writing a well-written peer out as `name@zone` and reading it back gives
/// the same peer.
pub proof fn law_peer_text_roundtrip(p: PeerView)
    requires
        well_written_peer(p),
    ensures
        peer_of(p.0 + seq!['@'] + p.1) == Some(p),
{
    crate::text::lemma_split_append_free(Seq::<char>::empty(), p.0, '@');
    assert(Seq::<char>::empty() + p.0 =~= p.0);
    assert(split(p.0, '@') =~= seq![p.0]);
    crate::text::lemma_split_append_sep(p.0, '@');
    crate::text::lemma_split_append_free(p.0.push('@'), p.1, '@');
    assert(p.0 + seq!['@'] + p.1 =~= p.0.push('@') + p.1);
    assert(Seq::<char>::empty() + p.1 =~= p.1);
    assert(split(p.0 + seq!['@'] + p.1, '@') =~= seq![p.0, p.1]);
}

/// The `Domain` a connected peer said it speaks: its name and version.
#[derive(Debug)]
pub struct PeerDomain {
    pub name: String,
    pub version: String,
}

impl PeerDomain {
    pub open spec fn view(&self) -> (Seq<char>, Seq<char>) {
        (self.name@, self.version@)
    }

    /// A copy of this domain record.
    pub fn duplicate(&self) -> (r: PeerDomain)
        ensures
            r.view() == self.view(),
    {
        PeerDomain { name: self.name.clone(), version: self.version.clone() }
    }
}

} // verus!

verus! {

/// The view of the peers each type lists, in order of registration.
pub open spec fn peer_lists(v: Seq<Vec<Peer>>) -> Seq<Seq<PeerView>> {
    v.map_values(|l: Vec<Peer>| l@.map_values(|p: Peer| p@))
}

/// The abstract state of the registry of connected agents.
pub struct RegistrarView {
    /// Each registered peer with its type; no peer appears twice.
    pub peers: Seq<(PeerView, Type)>,
    /// For each type (by `type_index`), the peers of that type in the order
    /// they registered.
    pub by_type: Seq<Seq<PeerView>>,
    /// The domain, as (name, version), each peer said it speaks.
    pub domains: Seq<(PeerView, (Seq<char>, Seq<char>))>,
    /// This agent's own name, type, engine and version.
    pub name: Seq<char>,
    pub typ: Type,
    pub engine: Seq<char>,
    pub version: Seq<char>,
    /// The zones registered peers connect from, each once.
    pub zones: Seq<Seq<char>>,
    /// When this agent registered itself (seconds since the epoch).
    pub start_time: i64,
    /// Whether health checks cascade to peers.
    pub cascade_health: bool,
}

/// The zones of the given peers, each once, first occurrence first.
pub open spec fn zones_of(ps: Seq<PeerView>) -> Seq<Seq<char>> {
    crate::destination::dedup(ps.map_values(|p: PeerView| p.1))
}

/// What every registry state satisfies: each peer is registered once, under
/// one type, and listed exactly under that type, once; each peer has at most
/// one domain; and the zone list names each zone of a registered peer once.
pub open spec fn registry_wf(v: RegistrarView) -> bool {
    &&& v.by_type.len() == 9
    &&& crate::text::keys(v.peers).no_duplicates()
    &&& crate::text::keys(v.domains).no_duplicates()
    &&& forall|t: Type| #[trigger] v.by_type[type_index(t)].no_duplicates()
    &&& forall|t: Type, p: PeerView|
        #[trigger] v.by_type[type_index(t)].contains(p) <==> crate::text::lookup(v.peers, p) == Some(t)
    &&& v.zones.no_duplicates()
    &&& forall|z: Seq<char>|
        #[trigger] v.zones.contains(z) <==> exists|p: PeerView|
            #[trigger] crate::text::keys(v.peers).contains(p) && p.1 == z
}

/// The registry with `p` taken out.
pub open spec fn registry_without(v: RegistrarView, p: PeerView) -> RegistrarView {
    let domains = crate::text::without(v.domains, p);
    match crate::text::lookup(v.peers, p) {
        Some(t) => {
            let peers = crate::text::without(v.peers, p);
            RegistrarView {
                peers,
                by_type: v.by_type.update(
                    type_index(t),
                    crate::text::drop_value(v.by_type[type_index(t)], p),
                ),
                domains,
                zones: zones_of(crate::text::keys(peers)),
                ..v
            }
        },
        None => RegistrarView { domains, ..v },
    }
}

/// The registry after `p` registers as type `t`, saying it speaks `domain`
/// (when both a domain name and version are given).
pub open spec fn registry_with(
    v: RegistrarView,
    p: PeerView,
    t: Type,
    domain: Option<(Seq<char>, Seq<char>)>,
) -> RegistrarView {
    if crate::text::lookup(v.peers, p) is Some && t == Type::Virtual {
        v
    } else {
        let v0 = if crate::text::lookup(v.peers, p) is Some {
            registry_without(v, p)
        } else {
            v
        };
        RegistrarView {
            peers: v0.peers.push((p, t)),
            by_type: v0.by_type.update(type_index(t), v0.by_type[type_index(t)].push(p)),
            domains: match domain {
                Some(d) => crate::text::without(v0.domains, p).push((p, d)),
                None => crate::text::without(v0.domains, p),
            },
            zones: if v0.zones.contains(p.1) {
                v0.zones
            } else {
                v0.zones.push(p.1)
            },
            ..v0
        }
    }
}

/// The registry of the agents this agent knows about.
pub struct Registrar {
    peers: Vec<(Peer, Type)>,
    peers_by_type: Vec<Vec<Peer>>,
    peer_domains: Vec<(Peer, PeerDomain)>,
    name: String,
    typ: Type,
    zones: Vec<String>,
    engine: String,
    version: String,
    start_time: i64,
    cascade_health: bool,
}

impl View for Registrar {
    type V = RegistrarView;

    closed spec fn view(&self) -> RegistrarView {
        RegistrarView {
            peers: self.peers@.map_values(|e: (Peer, Type)| (e.0@, e.1)),
            by_type: peer_lists(self.peers_by_type@),
            domains: self.peer_domains@.map_values(|e: (Peer, PeerDomain)| (e.0@, e.1.view())),
            name: self.name@,
            typ: self.typ,
            engine: self.engine@,
            version: self.version@,
            zones: self.zones@.map_values(|z: String| z@),
            start_time: self.start_time,
            cascade_health: self.cascade_health,
        }
    }
}

} // verus!

verus! {

pub proof fn lemma_type_index_injective(t: Type, u: Type)
    ensures
        0 <= type_index(t) < 9,
        type_index(t) == type_index(u) ==> t == u,
{
}

pub proof fn lemma_zones_of(ps: Seq<PeerView>)
    ensures
        zones_of(ps).no_duplicates(),
        forall|z: Seq<char>|
            #[trigger] zones_of(ps).contains(z) <==> exists|p: PeerView| #[trigger] ps.contains(p) && p.1 == z,
{
    let zs = ps.map_values(|p: PeerView| p.1);
    crate::destination::lemma_dedup(zs);
    assert forall|z: Seq<char>|
        #[trigger] zones_of(ps).contains(z) <==> exists|p: PeerView| #[trigger] ps.contains(p) && p.1 == z by {
        if zs.contains(z) {
            let k = choose|k: int| 0 <= k < zs.len() && zs[k] == z;
            assert(ps.contains(ps[k]));
        }
        if exists|p: PeerView| #[trigger] ps.contains(p) && p.1 == z {
            let p = choose|p: PeerView| #[trigger] ps.contains(p) && p.1 == z;
            let k = choose|k: int| 0 <= k < ps.len() && ps[k] == p;
            assert(zs[k] == z);
        }
    }
}

/// Taking a peer out keeps the registry well formed.
pub proof fn lemma_registry_without_wf(v: RegistrarView, p: PeerView)
    requires
        registry_wf(v),
    ensures
        registry_wf(registry_without(v, p)),
        crate::text::lookup(registry_without(v, p).peers, p) is None,
        forall|q: PeerView| q != p ==> #[trigger] crate::text::lookup(registry_without(v, p).peers, q)
            == crate::text::lookup(v.peers, q),
        crate::text::keys(registry_without(v, p).domains).no_duplicates(),
{
    let w = registry_without(v, p);
    crate::text::lemma_without_then_push(v.peers, p, (p, Type::Portal));
    crate::text::lemma_without_then_push(v.domains, p, (p, (Seq::empty(), Seq::empty())));
    match crate::text::lookup(v.peers, p) {
        Some(t) => {
            let peers = crate::text::without(v.peers, p);
            crate::text::lemma_drop_value(v.by_type[type_index(t)], p);
            assert forall|u: Type| #[trigger] w.by_type[type_index(u)].no_duplicates() by {
                lemma_type_index_injective(t, u);
            }
            assert forall|u: Type, q: PeerView|
                #[trigger] w.by_type[type_index(u)].contains(q) <==> crate::text::lookup(w.peers, q) == Some(u) by {
                lemma_type_index_injective(t, u);
                assert(v.by_type[type_index(u)].contains(q) <==> crate::text::lookup(v.peers, q) == Some(u));
            }
            lemma_zones_of(crate::text::keys(peers));
        },
        None => {
            assert(w.peers == v.peers);
        },
    }
}

/// Registering a peer keeps the registry well formed.
pub proof fn lemma_registry_with_wf(
    v: RegistrarView,
    p: PeerView,
    t: Type,
    domain: Option<(Seq<char>, Seq<char>)>,
)
    requires
        registry_wf(v),
    ensures
        registry_wf(registry_with(v, p, t, domain)),
{
    if crate::text::lookup(v.peers, p) is Some && t == Type::Virtual {
    } else {
        let v0 = if crate::text::lookup(v.peers, p) is Some {
            registry_without(v, p)
        } else {
            v
        };
        lemma_registry_without_wf(v, p);
        assert(registry_wf(v0));
        assert(crate::text::lookup(v0.peers, p) is None);
        let r = registry_with(v, p, t, domain);
        crate::text::lemma_first_index(crate::text::keys(v0.peers), p);
        assert(crate::text::without(v0.peers, p) == v0.peers);
        crate::text::lemma_without_then_push(v0.peers, p, (p, t));
        crate::text::lemma_without_then_push(v0.domains, p, (p, (Seq::empty(), Seq::empty())));
        match domain {
            Some(d) => {
                crate::text::lemma_without_then_push(v0.domains, p, (p, d));
            },
            None => {},
        }
        assert(!v0.by_type[type_index(t)].contains(p));
        assert forall|u: Type| #[trigger] r.by_type[type_index(u)].no_duplicates() by {
            lemma_type_index_injective(t, u);
            if u == t {
                let l = v0.by_type[type_index(t)];
                assert(l.no_duplicates());
                let m = l.push(p);
                assert forall|i: int, j: int| 0 <= i < m.len() && 0 <= j < m.len() && i != j implies m[i] != m[j] by {
                    if i < l.len() && j < l.len() {
                        assert(m[i] == l[i] && m[j] == l[j]);
                    } else if i < l.len() {
                        assert(l.contains(l[i]));
                    } else if j < l.len() {
                        assert(l.contains(l[j]));
                    }
                }
            }
        }
        assert forall|u: Type, q: PeerView|
            #[trigger] r.by_type[type_index(u)].contains(q) <==> crate::text::lookup(r.peers, q) == Some(u) by {
            lemma_type_index_injective(t, u);
            assert(v0.by_type[type_index(u)].contains(q) <==> crate::text::lookup(v0.peers, q) == Some(u));
            crate::text::lemma_seq_contains_push(v0.by_type[type_index(t)], p, q);
            assert(r.peers == crate::text::without(v0.peers, p).push((p, t)));
        }
        assert(crate::text::keys(r.peers) =~= crate::text::keys(v0.peers).push(p));
        assert forall|z: Seq<char>|
            #[trigger] r.zones.contains(z) <==> exists|q: PeerView|
                #[trigger] crate::text::keys(r.peers).contains(q) && q.1 == z by {
            crate::text::lemma_seq_contains_push(v0.zones, p.1, z);
            if exists|q: PeerView| #[trigger] crate::text::keys(r.peers).contains(q) && q.1 == z {
                let q = choose|q: PeerView| #[trigger] crate::text::keys(r.peers).contains(q) && q.1 == z;
                crate::text::lemma_seq_contains_push(crate::text::keys(v0.peers), p, q);
                if q != p {
                    assert(v0.zones.contains(z));
                }
            }
            if v0.zones.contains(z) {
                let q = choose|q: PeerView| #[trigger] crate::text::keys(v0.peers).contains(q) && q.1 == z;
                crate::text::lemma_seq_contains_push(crate::text::keys(v0.peers), p, q);
                assert(crate::text::keys(r.peers).contains(q));
            }
            if z == p.1 {
                crate::text::lemma_seq_contains_push(crate::text::keys(v0.peers), p, p);
                assert(crate::text::keys(r.peers).contains(p));
            }
        }
        if !v0.zones.contains(p.1) {
            let m = v0.zones.push(p.1);
            assert forall|i: int, j: int| 0 <= i < m.len() && 0 <= j < m.len() && i != j implies m[i] != m[j] by {
                if i < v0.zones.len() && j < v0.zones.len() {
                } else if i < v0.zones.len() {
                    assert(v0.zones.contains(v0.zones[i]));
                } else if j < v0.zones.len() {
                    assert(v0.zones.contains(v0.zones[j]));
                }
            }
        }
    }
}

} // verus!

verus! {

/// The peers of an association list of peers.
pub open spec fn peer_keys<V>(l: Seq<(Peer, V)>) -> Seq<PeerView> {
    l.map_values(|e: (Peer, V)| e.0@)
}

/// The index of the first entry for `p`.
fn find_entry<V>(list: &Vec<(Peer, V)>, p: &Peer) -> (r: Option<usize>)
    ensures
        r is None <==> first_index(peer_keys(list@), p@) < 0,
        r matches Some(i) ==> i == first_index(peer_keys(list@), p@) && i < list.len(),
{
    proof {
        lemma_first_index(peer_keys(list@), p@);
    }
    let mut i: usize = 0;
    while i < list.len()
        invariant
            i <= list.len(),
            forall|j: int| 0 <= j < i ==> peer_keys(list@)[j] != p@,
            -1 <= first_index(peer_keys(list@), p@) < list.len(),
            first_index(peer_keys(list@), p@) >= 0 ==> peer_keys(list@)[first_index(
                peer_keys(list@),
                p@,
            )] == p@,
            forall|j: int|
                0 <= j < list.len() && (first_index(peer_keys(list@), p@) < 0 || j < first_index(
                    peer_keys(list@),
                    p@,
                )) ==> peer_keys(list@)[j] != p@,
        decreases list.len() - i,
    {
        if list[i].0.same(p) {
            assert(peer_keys(list@)[i as int] == p@);
            return Some(i);
        }
        i = i + 1;
    }
    None
}

/// Copy a list of peers.
fn copy_peers(l: &Vec<Peer>) -> (r: Vec<Peer>)
    ensures
        r@.map_values(|p: Peer| p@) == l@.map_values(|p: Peer| p@),
{
    let mut r: Vec<Peer> = Vec::new();
    let mut i: usize = 0;
    while i < l.len()
        invariant
            i <= l.len(),
            r@.map_values(|p: Peer| p@) == l@.map_values(|p: Peer| p@).take(i as int),
        decreases l.len() - i,
    {
        let ghost prev = r@;
        r.push(l[i].clone());
        assert(r@.map_values(|p: Peer| p@) =~= prev.map_values(|p: Peer| p@).push(l@[i as int]@));
        i = i + 1;
        assert(r@.map_values(|p: Peer| p@) =~= l@.map_values(|p: Peer| p@).take(i as int));
    }
    assert(l@.map_values(|p: Peer| p@).take(l.len() as int) =~= l@.map_values(|p: Peer| p@));
    r
}

/// The list without any peer equal to `p`.
fn drop_peer(l: Vec<Peer>, p: &Peer) -> (r: Vec<Peer>)
    ensures
        r@.map_values(|q: Peer| q@) == crate::text::drop_value(l@.map_values(|q: Peer| q@), p@),
{
    let ghost lv = l@.map_values(|q: Peer| q@);
    let mut r: Vec<Peer> = Vec::new();
    let mut i: usize = 0;
    while i < l.len()
        invariant
            i <= l.len(),
            lv == l@.map_values(|q: Peer| q@),
            r@.map_values(|q: Peer| q@) == crate::text::drop_value(lv.take(i as int), p@),
        decreases l.len() - i,
    {
        assert(lv.take(i + 1).drop_last() =~= lv.take(i as int));
        assert(lv.take(i + 1).last() == l@[i as int]@);
        if !l[i].same(p) {
            let ghost prev = r@;
            r.push(l[i].clone());
            assert(r@.map_values(|q: Peer| q@) =~= prev.map_values(|q: Peer| q@).push(l@[i as int]@));
        }
        i = i + 1;
    }
    assert(lv.take(l.len() as int) =~= lv);
    r
}

impl Registrar {
    /// An empty registry for an agent that has not registered itself yet.
    pub fn create_null(start_time: i64) -> (r: Registrar)
        ensures
            registry_wf(r@),
            r@.peers.len() == 0,
            r@.domains.len() == 0,
            r@.zones.len() == 0,
            forall|t: Type| r@.by_type[type_index(t)].len() == 0,
            r@.name.len() == 0,
            r@.engine.len() == 0,
            r@.version.len() == 0,
            r@.typ == Type::Portal,
            r@.start_time == start_time,
            r@.cascade_health,
    {
        let mut by_type: Vec<Vec<Peer>> = Vec::new();
        let mut i: usize = 0;
        while i < 9
            invariant
                i <= 9,
                by_type.len() == i,
                forall|j: int| 0 <= j < i ==> (#[trigger] by_type@[j])@.len() == 0,
            decreases 9 - i,
        {
            by_type.push(Vec::new());
            i = i + 1;
        }
        let r = Registrar {
            peers: Vec::new(),
            peers_by_type: by_type,
            peer_domains: Vec::new(),
            name: String::new(),
            typ: Type::Portal,
            zones: Vec::new(),
            engine: String::new(),
            version: String::new(),
            start_time,
            cascade_health: true,
        };
        assert forall|t: Type| r@.by_type[type_index(t)].len() == 0 by {
            lemma_type_index_injective(t, t);
        }
        assert forall|t: Type, p: PeerView|
            #[trigger] r@.by_type[type_index(t)].contains(p) <==> crate::text::lookup(r@.peers, p) == Some(t) by {
            lemma_type_index_injective(t, t);
            crate::text::lemma_first_index(crate::text::keys(r@.peers), p);
        }
        assert forall|z: Seq<char>|
            #[trigger] r@.zones.contains(z) <==> exists|p: PeerView|
                #[trigger] crate::text::keys(r@.peers).contains(p) && p.1 == z by {}
        r
    }

    /// Record this agent's own name, type, engine, version and health-check
    /// policy, and when it registered.
    pub fn register_self(
        &mut self,
        name: &str,
        agent_type: &Type,
        engine: &str,
        version: &str,
        cascade_health: bool,
        now: i64,
    )
        requires
            registry_wf(old(self)@),
        ensures
            registry_wf(final(self)@),
            final(self)@ == (RegistrarView {
                name: name@,
                typ: *agent_type,
                engine: engine@,
                version: version@,
                start_time: now,
                cascade_health,
                ..old(self)@
            }),
    {
        self.name = String::from_str(name);
        self.typ = *agent_type;
        self.engine = String::from_str(engine);
        self.version = String::from_str(version);
        self.start_time = now;
        self.cascade_health = cascade_health;
    }
}

} // verus!

verus! {

/// The domain a peer reports when it gives both a name and a version.
pub open spec fn reported_domain(domain: Option<&str>, domain_version: Option<&str>) -> Option<
    (Seq<char>, Seq<char>),
> {
    match (domain, domain_version) {
        (Some(n), Some(v)) => Some((n@, v@)),
        _ => None,
    }
}

impl Registrar {
    proof fn lemma_views(&self)
        ensures
            crate::text::keys(self@.peers) == peer_keys(self.peers@),
            crate::text::keys(self@.domains) == peer_keys(self.peer_domains@),
            self@.by_type.len() == self.peers_by_type.len(),
    {
        assert(crate::text::keys(self@.peers) =~= peer_keys(self.peers@));
        assert(crate::text::keys(self@.domains) =~= peer_keys(self.peer_domains@));
    }

    fn remove_domain(&mut self, peer: &Peer)
        ensures
            final(self)@ == (RegistrarView {
                domains: crate::text::without(old(self)@.domains, peer@),
                ..old(self)@
            }),
    {
        proof {
            self.lemma_views();
        }
        match find_entry(&self.peer_domains, peer) {
            Some(i) => {
                let ghost prev = self@;
                self.peer_domains.remove(i);
                assert(self@.domains =~= prev.domains.remove(i as int));
            },
            None => {},
        }
        assert(self@ =~= RegistrarView {
            domains: crate::text::without(old(self)@.domains, peer@),
            ..old(self)@
        });
    }

    fn rebuild_zones(&mut self)
        ensures
            final(self)@ == (RegistrarView {
                zones: zones_of(crate::text::keys(old(self)@.peers)),
                ..old(self)@
            }),
    {
        proof {
            self.lemma_views();
        }
        let ghost ks = crate::text::keys(self@.peers);
        let ghost zs = ks.map_values(|p: PeerView| p.1);
        let mut zones: Vec<String> = Vec::new();
        let mut i: usize = 0;
        while i < self.peers.len()
            invariant
                i <= self.peers.len(),
                ks == peer_keys(self.peers@),
                zs == ks.map_values(|p: PeerView| p.1),
                zones@.map_values(|z: String| z@) == crate::destination::dedup(zs.take(i as int)),
            decreases self.peers.len() - i,
        {
            let ghost cur = zones@.map_values(|z: String| z@);
            assert(zs.take(i + 1).drop_last() =~= zs.take(i as int));
            assert(zs.take(i + 1).last() == self.peers@[i as int].0@.1);
            let mut found = false;
            let mut j: usize = 0;
            while j < zones.len()
                invariant
                    j <= zones.len(),
                    cur == zones@.map_values(|z: String| z@),
                    i < self.peers.len(),
                    found ==> cur.contains(self.peers@[i as int].0@.1),
                    !found ==> forall|k: int| 0 <= k < j ==> cur[k] != self.peers@[i as int].0@.1,
                decreases zones.len() - j,
            {
                if zones[j] == self.peers[i].0.zone {
                    assert(cur[j as int] == self.peers@[i as int].0@.1);
                    found = true;
                }
                j = j + 1;
            }
            if !found {
                let z = String::from_str(self.peers[i].0.zone());
                zones.push(z);
                assert(zones@.map_values(|z: String| z@) =~= cur.push(self.peers@[i as int].0@.1));
            }
            i = i + 1;
        }
        assert(zs.take(self.peers.len() as int) =~= zs);
        self.zones = zones;
        assert(self@ =~= RegistrarView { zones: zones_of(crate::text::keys(old(self)@.peers)), ..old(self)@ });
    }

    /// Take `peer` out of the registry: it loses its type, its listing, its
    /// domain, and the zone list is rebuilt from the peers that remain.
    pub fn remove(&mut self, peer: &Peer)
        requires
            registry_wf(old(self)@),
        ensures
            final(self)@ == registry_without(old(self)@, peer@),
            registry_wf(final(self)@),
    {
        proof {
            lemma_registry_without_wf(self@, peer@);
            self.lemma_views();
        }
        let ghost v = self@;
        self.remove_domain(peer);
        proof {
            self.lemma_views();
        }
        match find_entry(&self.peers, peer) {
            Some(i) => {
                let ghost mid = self@;
                let entry = self.peers.remove(i);
                let t = entry.1;
                assert(crate::text::lookup(v.peers, peer@) == Some(t));
                let idx = t.index();
                proof {
                    lemma_type_index_injective(t, t);
                }
                let list = self.peers_by_type.remove(idx);
                assert(list@.map_values(|q: Peer| q@) == v.by_type[idx as int]);
                let newl = drop_peer(list, peer);
                self.peers_by_type.insert(idx, newl);
                assert(self@.peers =~= crate::text::without(v.peers, peer@));
                assert(self@.by_type =~= v.by_type.update(
                    type_index(t),
                    crate::text::drop_value(v.by_type[type_index(t)], peer@),
                ));
                self.rebuild_zones();
                assert(self@ =~= registry_without(v, peer@));
            },
            None => {
                assert(crate::text::lookup(v.peers, peer@) is None);
                assert(self@ =~= registry_without(v, peer@));
            },
        }
    }

    /// Register that `peer` is an agent of type `agent_type`, speaking the
    /// domain named `domain` at `domain_version` when both are known. A peer
    /// already registered is re-registered under its new type - unless the
    /// new type is `Virtual`, which never overwrites a real agent.
    pub fn register_peer(
        &mut self,
        peer: &Peer,
        agent_type: &Type,
        engine: &str,
        version: &str,
        domain: Option<&str>,
        domain_version: Option<&str>,
    )
        requires
            registry_wf(old(self)@),
        ensures
            final(self)@ == registry_with(
                old(self)@,
                peer@,
                *agent_type,
                reported_domain(domain, domain_version),
            ),
            registry_wf(final(self)@),
    {
        proof {
            lemma_registry_with_wf(self@, peer@, *agent_type, reported_domain(domain, domain_version));
            lemma_registry_without_wf(self@, peer@);
            self.lemma_views();
        }
        let ghost v = self@;
        let present = find_entry(&self.peers, peer).is_some();
        assert(present == crate::text::lookup(v.peers, peer@) is Some);
        if present {
            if *agent_type == Type::Virtual {
                return;
            }
            self.remove(peer);
        }
        let ghost v0 = self@;
        assert(v0 == (if crate::text::lookup(v.peers, peer@) is Some {
            registry_without(v, peer@)
        } else {
            v
        }));
        proof {
            self.lemma_views();
            crate::text::lemma_first_index(crate::text::keys(v0.peers), peer@);
        }
        self.peers.push((peer.clone(), *agent_type));
        let idx = agent_type.index();
        proof {
            lemma_type_index_injective(*agent_type, *agent_type);
        }
        let mut list = self.peers_by_type.remove(idx);
        assert(list@.map_values(|q: Peer| q@) == v0.by_type[idx as int]);
        let ghost before = list@;
        list.push(peer.clone());
        assert(list@.map_values(|q: Peer| q@) =~= v0.by_type[idx as int].push(peer@));
        self.peers_by_type.insert(idx, list);
        self.remove_domain(peer);
        match (domain, domain_version) {
            (Some(n), Some(ver)) => {
                let d = PeerDomain { name: String::from_str(n), version: String::from_str(ver) };
                self.peer_domains.push((peer.clone(), d));
            },
            _ => {},
        }
        let mut found = false;
        let mut j: usize = 0;
        let ghost cur = self@.zones;
        while j < self.zones.len()
            invariant
                j <= self.zones.len(),
                cur == self.zones@.map_values(|z: String| z@),
                found ==> cur.contains(peer@.1),
                !found ==> forall|k: int| 0 <= k < j ==> cur[k] != peer@.1,
            decreases self.zones.len() - j,
        {
            if self.zones[j] == peer.zone {
                assert(cur[j as int] == peer@.1);
                found = true;
            }
            j = j + 1;
        }
        if !found {
            self.zones.push(String::from_str(peer.zone()));
        }
        assert(self@.peers =~= v0.peers.push((peer@, *agent_type)));
        assert(self@.by_type =~= v0.by_type.update(type_index(*agent_type), v0.by_type[type_index(*agent_type)].push(peer@)));
        assert(self@.domains =~= registry_with(v, peer@, *agent_type, reported_domain(domain, domain_version)).domains);
        assert(self@.zones =~= registry_with(v, peer@, *agent_type, reported_domain(domain, domain_version)).zones);
        assert(self@ =~= registry_with(v, peer@, *agent_type, reported_domain(domain, domain_version)));
    }
}

} // verus!

verus! {

/// The registered peers whose type is not `Virtual`, in registration order.
pub open spec fn real_keys(s: Seq<(PeerView, Type)>) -> Seq<PeerView>
    decreases s.len(),
{
    if s.len() == 0 {
        Seq::empty()
    } else if s.last().1 == Type::Virtual {
        real_keys(s.drop_last())
    } else {
        real_keys(s.drop_last()).push(s.last().0)
    }
}

/// The first registered peer called `name`, if any.
pub open spec fn first_named(ks: Seq<PeerView>, name: Seq<char>) -> Option<PeerView>
    decreases ks.len(),
{
    if ks.len() == 0 {
        None
    } else if first_named(ks.drop_last(), name) is Some {
        first_named(ks.drop_last(), name)
    } else if ks.last().0 == name {
        Some(ks.last())
    } else {
        None
    }
}

/// The type the registry gives `p`: its registered type, or this agent's own
/// type when `p` carries this agent's name.
pub open spec fn type_of_peer(v: RegistrarView, p: PeerView) -> Option<Type> {
    match crate::text::lookup(v.peers, p) {
        Some(t) => Some(t),
        None => if p.0 == v.name {
            Some(v.typ)
        } else {
            None
        },
    }
}

impl Registrar {
    /// The peers registered as `agent_type`, in the order they registered.
    pub fn agents(&self, agent_type: &Type) -> (r: Vec<Peer>)
        requires
            registry_wf(self@),
        ensures
            r@.map_values(|p: Peer| p@) == self@.by_type[type_index(*agent_type)],
    {
        let idx = agent_type.index();
        copy_peers(&self.peers_by_type[idx])
    }

    /// The first peer registered as `agent_type`, if any.
    pub fn first_of(&self, agent_type: &Type) -> (r: Option<Peer>)
        requires
            registry_wf(self@),
        ensures
            r is Some <==> self@.by_type[type_index(*agent_type)].len() > 0,
            r matches Some(p) ==> p@ == self@.by_type[type_index(*agent_type)][0],
    {
        let idx = agent_type.index();
        if self.peers_by_type[idx].len() > 0 {
            Some(self.peers_by_type[idx][0].clone())
        } else {
            None
        }
    }

    /// The first portal agent registered, if any.
    pub fn portal(&self) -> (r: Option<Peer>)
        requires
            registry_wf(self@),
        ensures
            r is Some <==> self@.by_type[type_index(Type::Portal)].len() > 0,
            r matches Some(p) ==> p@ == self@.by_type[type_index(Type::Portal)][0],
    {
        self.first_of(&Type::Portal)
    }

    /// The first bridge agent registered, if any.
    pub fn bridge(&self) -> (r: Option<Peer>)
        requires
            registry_wf(self@),
        ensures
            r is Some <==> self@.by_type[type_index(Type::Bridge)].len() > 0,
            r matches Some(p) ==> p@ == self@.by_type[type_index(Type::Bridge)][0],
    {
        self.first_of(&Type::Bridge)
    }

    /// The first account agent registered, if any.
    pub fn account(&self) -> (r: Option<Peer>)
        requires
            registry_wf(self@),
        ensures
            r is Some <==> self@.by_type[type_index(Type::Account)].len() > 0,
            r matches Some(p) ==> p@ == self@.by_type[type_index(Type::Account)][0],
    {
        self.first_of(&Type::Account)
    }

    /// The first filesystem agent registered, if any.
    pub fn filesystem(&self) -> (r: Option<Peer>)
        requires
            registry_wf(self@),
        ensures
            r is Some <==> self@.by_type[type_index(Type::Filesystem)].len() > 0,
            r matches Some(p) ==> p@ == self@.by_type[type_index(Type::Filesystem)][0],
    {
        self.first_of(&Type::Filesystem)
    }

    /// The first scheduler agent registered, if any.
    pub fn scheduler(&self) -> (r: Option<Peer>)
        requires
            registry_wf(self@),
        ensures
            r is Some <==> self@.by_type[type_index(Type::Scheduler)].len() > 0,
            r matches Some(p) ==> p@ == self@.by_type[type_index(Type::Scheduler)][0],
    {
        self.first_of(&Type::Scheduler)
    }

    /// The domain `peer` said it speaks, if known.
    pub fn peer_domain(&self, peer: &Peer) -> (r: Option<PeerDomain>)
        ensures
            r is Some <==> crate::text::lookup(self@.domains, peer@) is Some,
            r matches Some(d) ==> d.view() == crate::text::lookup(self@.domains, peer@)->0,
    {
        proof {
            self.lemma_views();
        }
        match find_entry(&self.peer_domains, peer) {
            Some(i) => Some(self.peer_domains[i].1.duplicate()),
            None => None,
        }
    }

    /// Whether `peer` is registered.
    pub fn contains(&self, peer: &Peer) -> (r: bool)
        ensures
            r == crate::text::keys(self@.peers).contains(peer@),
    {
        proof {
            self.lemma_views();
            lemma_first_index(crate::text::keys(self@.peers), peer@);
        }
        find_entry(&self.peers, peer).is_some()
    }

    /// This agent as a peer in `zone`, or in the zone `local` if none is given.
    pub fn get_self(&self, zone: Option<&str>) -> (r: Peer)
        ensures
            r@ == (self@.name, match zone {
                Some(z) => z@,
                None => "local"@,
            }),
    {
        let z = match zone {
            Some(z) => z,
            None => "local",
        };
        Peer { name: self.name.clone(), zone: String::from_str(z) }
    }

    /// Whether health checks cascade from this agent to its peers.
    pub fn should_cascade_health(&self) -> (r: bool)
        ensures
            r == self@.cascade_health,
    {
        self.cascade_health
    }

    /// This agent's name.
    pub fn name(&self) -> (r: String)
        ensures
            r@ == self@.name,
    {
        self.name.clone()
    }

    /// The engine this agent runs.
    pub fn engine(&self) -> (r: String)
        ensures
            r@ == self@.engine,
    {
        self.engine.clone()
    }

    /// This agent's version.
    pub fn version(&self) -> (r: String)
        ensures
            r@ == self@.version,
    {
        self.version.clone()
    }

    /// When this agent registered itself.
    pub fn start_time(&self) -> (r: i64)
        ensures
            r == self@.start_time,
    {
        self.start_time
    }

    /// This agent's own type.
    pub fn my_agent_type(&self) -> (r: Type)
        ensures
            r == self@.typ,
    {
        self.typ
    }

    /// Every registered peer.
    pub fn all_peers(&self) -> (r: Vec<Peer>)
        ensures
            r@.map_values(|p: Peer| p@) == crate::text::keys(self@.peers),
    {
        proof {
            self.lemma_views();
        }
        let mut r: Vec<Peer> = Vec::new();
        let mut i: usize = 0;
        while i < self.peers.len()
            invariant
                i <= self.peers.len(),
                r@.map_values(|p: Peer| p@) == peer_keys(self.peers@).take(i as int),
            decreases self.peers.len() - i,
        {
            let ghost prev = r@;
            r.push(self.peers[i].0.clone());
            assert(r@.map_values(|p: Peer| p@) =~= prev.map_values(|p: Peer| p@).push(self.peers@[i as int].0@));
            i = i + 1;
            assert(r@.map_values(|p: Peer| p@) =~= peer_keys(self.peers@).take(i as int));
        }
        assert(peer_keys(self.peers@).take(self.peers.len() as int) =~= peer_keys(self.peers@));
        r
    }

    /// Every registered peer that is not virtual.
    pub fn real_peers(&self) -> (r: Vec<Peer>)
        ensures
            r@.map_values(|p: Peer| p@) == real_keys(self@.peers),
    {
        let ghost ps = self@.peers;
        let mut r: Vec<Peer> = Vec::new();
        let mut i: usize = 0;
        while i < self.peers.len()
            invariant
                i <= self.peers.len(),
                ps == self@.peers,
                r@.map_values(|p: Peer| p@) == real_keys(ps.take(i as int)),
            decreases self.peers.len() - i,
        {
            assert(ps.take(i + 1).drop_last() =~= ps.take(i as int));
            assert(ps.take(i + 1).last() == (self.peers@[i as int].0@, self.peers@[i as int].1));
            if self.peers[i].1 != Type::Virtual {
                let ghost prev = r@;
                r.push(self.peers[i].0.clone());
                assert(r@.map_values(|p: Peer| p@) =~= prev.map_values(|p: Peer| p@).push(self.peers@[i as int].0@));
            }
            i = i + 1;
        }
        assert(ps.take(self.peers.len() as int) =~= ps);
        r
    }

    fn list_contains(l: &Vec<Peer>, peer: &Peer) -> (r: bool)
        ensures
            r == l@.map_values(|p: Peer| p@).contains(peer@),
    {
        let ghost lv = l@.map_values(|p: Peer| p@);
        let mut i: usize = 0;
        while i < l.len()
            invariant
                i <= l.len(),
                lv == l@.map_values(|p: Peer| p@),
                forall|j: int| 0 <= j < i ==> lv[j] != peer@,
            decreases l.len() - i,
        {
            if l[i].same(peer) {
                assert(lv[i as int] == peer@);
                return true;
            }
            i = i + 1;
        }
        false
    }

    /// Whether `peer` is registered as a virtual agent.
    pub fn has_virtual(&self, peer: &Peer) -> (r: bool)
        requires
            registry_wf(self@),
        ensures
            r == self@.by_type[type_index(Type::Virtual)].contains(peer@),
    {
        Self::list_contains(&self.peers_by_type[8], peer)
    }

    /// The type of `peer`: its registered type, or this agent's own type when
    /// `peer` carries this agent's name.
    pub fn agent_type(&self, peer: &Peer) -> (r: Option<Type>)
        ensures
            r == type_of_peer(self@, peer@),
    {
        proof {
            self.lemma_views();
        }
        match find_entry(&self.peers, peer) {
            Some(i) => Some(self.peers[i].1),
            None => {
                if peer.name == self.name {
                    Some(self.typ)
                } else {
                    None
                }
            },
        }
    }

    /// Whether `peer` carries this agent's own name.
    pub fn is_self(&self, peer: &Peer) -> (r: bool)
        ensures
            r == (peer@.0 == self@.name),
    {
        peer.name == self.name
    }

    /// Whether `peer` is virtual: this agent itself, or a registered virtual
    /// agent.
    pub fn is_virtual(&self, peer: &Peer) -> (r: bool)
        requires
            registry_wf(self@),
        ensures
            r == (peer@.0 == self@.name || self@.by_type[type_index(Type::Virtual)].contains(peer@)),
    {
        if peer.name == self.name {
            true
        } else {
            self.has_virtual(peer)
        }
    }

    /// The first registered peer called `name`, if any.
    pub fn find(&self, name: &str) -> (r: Option<Peer>)
        ensures
            r is Some <==> first_named(crate::text::keys(self@.peers), name@) is Some,
            r matches Some(p) ==> p@ == first_named(crate::text::keys(self@.peers), name@)->0,
    {
        proof {
            self.lemma_views();
        }
        let ghost ks = crate::text::keys(self@.peers);
        let target = String::from_str(name);
        let mut i: usize = 0;
        while i < self.peers.len()
            invariant
                i <= self.peers.len(),
                ks == peer_keys(self.peers@),
                ks == crate::text::keys(self@.peers),
                target@ == name@,
                first_named(ks.take(i as int), name@) is None,
            decreases self.peers.len() - i,
        {
            assert(ks.take(i + 1).drop_last() =~= ks.take(i as int));
            if self.peers[i].0.name == target {
                assert(ks.take(i + 1).last() == self.peers@[i as int].0@);
                assert(first_named(ks.take(i + 1), name@) == Some(self.peers@[i as int].0@));
                proof {
                    lemma_first_named_prefix(ks, i as int + 1, name@);
                }
                return Some(self.peers[i].0.clone());
            }
            i = i + 1;
        }
        assert(ks.take(self.peers.len() as int) =~= ks);
        None
    }
}

proof fn lemma_first_named_prefix(ks: Seq<PeerView>, n: int, name: Seq<char>)
    requires
        0 <= n <= ks.len(),
        first_named(ks.take(n), name) is Some,
    ensures
        first_named(ks, name) == first_named(ks.take(n), name),
    decreases ks.len() - n,
{
    if n < ks.len() {
        assert(ks.take(n + 1).drop_last() =~= ks.take(n));
        assert(first_named(ks.take(n + 1), name) == first_named(ks.take(n), name));
        lemma_first_named_prefix(ks, n + 1, name);
    } else {
        assert(ks.take(n) =~= ks);
    }
}

/// Whether a peer that reports `actual` may stay connected to an agent that
/// speaks `expected`: it must report `expected`, or be the built-in router
/// that speaks the domain `erased`.
pub open spec fn domain_accepted(expected: Seq<char>, actual: Option<(Seq<char>, Seq<char>)>) -> bool {
    match actual {
        Some(d) => d.0 == "erased"@ || d.0 == expected,
        None => false,
    }
}

/// Decide whether `peer`, which reported `actual`, speaks this agent's
/// domain `expected`. A peer that reported nothing is refused, as is one that
/// reported another domain - except the built-in router `erased`. The error
/// names what was found; the caller disconnects the peer.
pub fn check_peer_domain(peer: &Peer, expected: &str, actual: Option<&PeerDomain>) -> (r: Result<(), Error>)
    ensures
        r is Ok <==> domain_accepted(expected@, match actual {
            Some(d) => Some(d.view()),
            None => None,
        }),
        r matches Err(e) ==> (e matches Error::Incompatible(m) && m@ == match actual {
            Some(d) => "Peer "@ + peer@.0 + seq!['@'] + peer@.1 + " speaks domain '"@ + d.name@
                + "' (version "@ + d.version@ + "), but this agent speaks '"@ + expected@
                + "' - disconnecting"@,
            None => "Peer "@ + peer@.0 + seq!['@'] + peer@.1
                + " did not report a domain (and none could be assumed for it) - this agent speaks '"@
                + expected@ + "' - disconnecting"@,
        }),
{
    proof {
        reveal_strlit("erased");
    }
    match actual {
        Some(d) => {
            if chars_eq(&chars_of(d.name.as_str()), "erased") || chars_eq(&chars_of(d.name.as_str()), expected) {
                return Ok(());
            }
            let mut m: Vec<char> = Vec::new();
            push_str(&mut m, "Peer ");
            let ps = chars_of(peer.to_string().as_str());
            push_chars(&mut m, &ps);
            push_str(&mut m, " speaks domain '");
            push_str(&mut m, d.name.as_str());
            push_str(&mut m, "' (version ");
            push_str(&mut m, d.version.as_str());
            push_str(&mut m, "), but this agent speaks '");
            push_str(&mut m, expected);
            push_str(&mut m, "' - disconnecting");
            assert(m@ =~= "Peer "@ + peer@.0 + seq!['@'] + peer@.1 + " speaks domain '"@ + d.name@
                + "' (version "@ + d.version@ + "), but this agent speaks '"@ + expected@
                + "' - disconnecting"@);
            Err(Error::Incompatible(string_of(&m)))
        },
        None => {
            let mut m: Vec<char> = Vec::new();
            push_str(&mut m, "Peer ");
            let ps = chars_of(peer.to_string().as_str());
            push_chars(&mut m, &ps);
            push_str(&mut m, " did not report a domain (and none could be assumed for it) - this agent speaks '");
            push_str(&mut m, expected);
            push_str(&mut m, "' - disconnecting");
            assert(m@ =~= "Peer "@ + peer@.0 + seq!['@'] + peer@.1
                + " did not report a domain (and none could be assumed for it) - this agent speaks '"@
                + expected@ + "' - disconnecting"@);
            Err(Error::Incompatible(string_of(&m)))
        },
    }
}

/// The domain a job or notification is taken to speak: its own, or failing
/// that the domain its sender reported.
pub open spec fn message_domain(own: Option<&str>, sender: Option<(Seq<char>, Seq<char>)>) -> Option<Seq<char>> {
    match own {
        Some(d) => Some(d@),
        None => match sender {
            Some(s) => Some(s.0),
            None => None,
        },
    }
}

/// Decide whether a message (`what` is `Job` or `Notification`, `id` its id)
/// that records the domain `own`, and came from a sender that reported
/// `sender`, belongs to this agent's domain `expected`. It belongs only when
/// the domain it is taken to speak is `expected`.
pub fn check_message_domain(
    what: &str,
    id: &str,
    expected: &str,
    own: Option<&str>,
    sender: Option<&PeerDomain>,
) -> (r: Result<(), Error>)
    ensures
        r is Ok <==> message_domain(own, match sender {
            Some(d) => Some(d.view()),
            None => None,
        }) == Some(expected@),
        r matches Err(e) ==> (e matches Error::Incompatible(m) && m@ == what@ + " "@ + id@
            + " has domain '"@ + match message_domain(own, match sender {
            Some(d) => Some(d.view()),
            None => None,
        }) {
            Some(a) => a,
            None => "unknown"@,
        } + "', but this agent speaks '"@ + expected@ + "'"@),
{
    let actual: Option<Vec<char>> = match own {
        Some(d) => Some(chars_of(d)),
        None => match sender {
            Some(s) => Some(chars_of(s.name.as_str())),
            None => None,
        },
    };
    let mut m: Vec<char> = Vec::new();
    match &actual {
        Some(a) => {
            if chars_eq(a, expected) {
                return Ok(());
            }
        },
        None => {},
    }
    push_str(&mut m, what);
    push_str(&mut m, " ");
    push_str(&mut m, id);
    push_str(&mut m, " has domain '");
    match &actual {
        Some(a) => push_chars(&mut m, a),
        None => push_str(&mut m, "unknown"),
    }
    push_str(&mut m, "', but this agent speaks '");
    push_str(&mut m, expected);
    push_str(&mut m, "'");
    let ghost shown = match message_domain(own, match sender {
        Some(d) => Some(d.view()),
        None => None,
    }) {
        Some(a) => a,
        None => "unknown"@,
    };
    assert(m@ =~= what@ + " "@ + id@ + " has domain '"@ + shown + "', but this agent speaks '"@
        + expected@ + "'"@);
    Err(Error::Incompatible(string_of(&m)))
}

} // verus!

verus! {

/// After a peer registers (other than as a virtual agent over one already
/// known), the registry gives it the type it registered with, lists it last
/// among the agents of that type and under no other type, knows its zone, and
/// leaves every other peer's type as it was.
pub proof fn law_register_then_lookup(
    v: RegistrarView,
    p: PeerView,
    t: Type,
    d: Option<(Seq<char>, Seq<char>)>,
)
    requires
        registry_wf(v),
        !(crate::text::lookup(v.peers, p) is Some && t == Type::Virtual),
    ensures
        crate::text::lookup(registry_with(v, p, t, d).peers, p) == Some(t),
        registry_with(v, p, t, d).by_type[type_index(t)].last() == p,
        forall|u: Type| u != t ==> !(#[trigger] registry_with(v, p, t, d).by_type[type_index(u)]).contains(p),
        registry_with(v, p, t, d).zones.contains(p.1),
        forall|q: PeerView| q != p ==> #[trigger] crate::text::lookup(registry_with(v, p, t, d).peers, q)
            == crate::text::lookup(v.peers, q),
        crate::text::lookup(registry_with(v, p, t, d).domains, p) == d,
{
    lemma_registry_with_wf(v, p, t, d);
    lemma_registry_without_wf(v, p);
    let r = registry_with(v, p, t, d);
    let v0 = if crate::text::lookup(v.peers, p) is Some {
        registry_without(v, p)
    } else {
        v
    };
    crate::text::lemma_first_index(crate::text::keys(v0.peers), p);
    crate::text::lemma_without_then_push(v0.peers, p, (p, t));
    assert(crate::text::without(v0.peers, p) == v0.peers);
    assert forall|u: Type| u != t implies !(#[trigger] r.by_type[type_index(u)]).contains(p) by {
        lemma_type_index_injective(t, u);
        assert(r.by_type[type_index(u)].contains(p) <==> crate::text::lookup(r.peers, p) == Some(u));
    }
    crate::text::lemma_seq_contains_push(v0.zones, p.1, p.1);
    match d {
        Some(dd) => {
            crate::text::lemma_without_then_push(v0.domains, p, (p, dd));
        },
        None => {
            crate::text::lemma_without_then_push(v0.domains, p, (p, (Seq::empty(), Seq::empty())));
        },
    }
}

/// A virtual agent never overwrites an agent already registered.
pub proof fn law_virtual_never_overwrites(
    v: RegistrarView,
    p: PeerView,
    d: Option<(Seq<char>, Seq<char>)>,
)
    requires
        crate::text::lookup(v.peers, p) is Some,
    ensures
        registry_with(v, p, Type::Virtual, d) == v,
{
}

/// After a peer is removed, the registry forgets it entirely: it has no type,
/// is listed under no type, has no domain, and every other peer keeps its
/// type.
pub proof fn law_remove_forgets(v: RegistrarView, p: PeerView)
    requires
        registry_wf(v),
    ensures
        crate::text::lookup(registry_without(v, p).peers, p) is None,
        forall|u: Type| !(#[trigger] registry_without(v, p).by_type[type_index(u)]).contains(p),
        crate::text::lookup(registry_without(v, p).domains, p) is None,
        forall|q: PeerView| q != p ==> #[trigger] crate::text::lookup(registry_without(v, p).peers, q)
            == crate::text::lookup(v.peers, q),
{
    lemma_registry_without_wf(v, p);
    let w = registry_without(v, p);
    assert forall|u: Type| !(#[trigger] w.by_type[type_index(u)]).contains(p) by {
        assert(w.by_type[type_index(u)].contains(p) <==> crate::text::lookup(w.peers, p) == Some(u));
    }
    crate::text::lemma_without_then_push(v.domains, p, (p, (Seq::empty(), Seq::empty())));
}

} // verus!
