use vstd::prelude::*;
use vstd::string::*;

use crate::error::Error;
use crate::json::{call_error, find_named, named_entry, required_str, required_text, Json};
use crate::slurm::{clean_account_name, cleaned_name, eq_ignore_ascii_case};
use crate::text::{chars_of, lemma_seq_contains_push, lower, str_eq, to_ascii_lowercase, trim};

verus! {

broadcast use vstd::string::group_string_axioms;

/// The kinds of usage limit an account can carry.
#[derive(Debug, Clone, Copy, PartialEq, Eq, Structural)]
pub enum LimitKind {
    Cpu,
    Memory,
    Gpu,
    Billing,
}

/// The most minutes a limit can give that are still a `u64` of seconds.
pub const MAX_LIMIT_MINUTES: u64 = 307445734561825860;

/// What one entry of an account's limits does: `Err` stops the reading (a
/// name that is not a string); `Ok(None)` passes over it (no string type, no
/// name, no count that is a non-negative integer, or a type that is not a
/// limit); `Ok(Some((kind, minutes)))` sets that limit.
pub open spec fn limit_entry(e: Json) -> Result<Option<(LimitKind, u64)>, Seq<char>> {
    match e.field("type"@) {
        None => Ok(None),
        Some(t) => match t.text() {
            None => Ok(None),
            Some(kind) => match e.field("name"@) {
                None => Ok(None),
                Some(n) => match n.text() {
                    None => Err("Could not get name as string from limit"@),
                    Some(name) => match e.field("count"@) {
                        None => Ok(None),
                        Some(c) => match c.unsigned() {
                            None => Ok(None),
                            Some(count) => {
                                let k = lower(kind);
                                if k == "cpu"@ {
                                    Ok(Some((LimitKind::Cpu, count)))
                                } else if k == "mem"@ {
                                    Ok(Some((LimitKind::Memory, count)))
                                } else if k == "gres"@ && name == "gpu"@ {
                                    Ok(Some((LimitKind::Gpu, count)))
                                } else if k == "billing"@ {
                                    Ok(Some((LimitKind::Billing, count)))
                                } else {
                                    Ok(None)
                                }
                            },
                        },
                    },
                },
            },
        },
    }
}

/// The CPU, GPU, memory and billing limits, in seconds.
pub type Limits = (Option<u64>, Option<u64>, Option<u64>, Option<u64>);

/// `l` with the limit of `kind` set to `seconds`.
pub open spec fn set_limit_of(l: Limits, kind: LimitKind, seconds: u64) -> Limits {
    match kind {
        LimitKind::Cpu => (Some(seconds), l.1, l.2, l.3),
        LimitKind::Gpu => (l.0, Some(seconds), l.2, l.3),
        LimitKind::Memory => (l.0, l.1, Some(seconds), l.3),
        LimitKind::Billing => (l.0, l.1, l.2, Some(seconds)),
    }
}

/// The limits that the entries `es` set, read in order (a later entry of a
/// kind replaces an earlier one; Slurm gives minutes and the limits are
/// kept in seconds); or the message of the first entry that stops the
/// reading.
pub open spec fn limits_of(es: Seq<Json>) -> Result<Limits, Seq<char>>
    decreases es.len(),
{
    if es.len() == 0 {
        Ok((None, None, None, None))
    } else {
        match limits_of(es.drop_last()) {
            Err(m) => Err(m),
            Ok(l) => match limit_entry(es.last()) {
                Err(m) => Err(m),
                Ok(None) => Ok(l),
                Ok(Some((kind, minutes))) => Ok(set_limit_of(l, kind, (minutes * 60) as u64)),
            },
        }
    }
}

/// Whether every limit that is read from `es` is few enough minutes to be
/// a `u64` of seconds (the multiplication would overflow otherwise).
pub open spec fn limits_in_range(es: Seq<Json>) -> bool {
    forall|k: int|
        0 <= k < es.len() && #[trigger] limits_of(es.take(k)) is Ok ==> match limit_entry(es[k]) {
            Ok(Some((_, minutes))) => minutes <= MAX_LIMIT_MINUTES,
            _ => true,
        }
}

/// The account, the cluster and the limit entries of a limit as Slurm
/// describes it.
pub open spec fn limit_head(value: Json) -> Result<(Seq<char>, Seq<char>, Seq<Json>), Seq<char>> {
    match required_text(value, "account"@, "Could not get account from limit"@, "Could not get account as string from limit"@) {
        Err(m) => Err(m),
        Ok(account) => match required_text(value, "cluster"@, "Could not get cluster from limit"@, "Could not get cluster as string from limit"@) {
            Err(m) => Err(m),
            Ok(cluster) => match value.field("max"@) {
                None => Err("Could not get max from limit"@),
                Some(max) => match max.field("tres"@) {
                    None => Err("Could not get tres from max"@),
                    Some(tres) => match tres.field("group"@) {
                        None => Err("Could not get group from tres"@),
                        Some(group) => match group.field("minutes"@) {
                            None => Err("Could not get minutes from group"@),
                            Some(minutes) => match minutes.items() {
                                None => Err("Limits is not an array"@),
                                Some(es) => Ok((account, cluster, es)),
                            },
                        },
                    },
                },
            },
        },
    }
}

/// The account (in its Slurm form), the cluster and the limits that a
/// limit as Slurm describes it gives; or the message of the first thing
/// missing.
pub open spec fn limit_fields(value: Json) -> Result<(Seq<char>, Seq<char>, Limits), Seq<char>> {
    match limit_head(value) {
        Err(m) => Err(m),
        Ok((account, cluster, es)) => match limits_of(es) {
            Err(m) => Err(m),
            Ok(l) => if trim(account).len() == 0 {
                Err("Account name is empty"@)
            } else {
                Ok((cleaned_name(account), cluster, l))
            },
        },
    }
}

/// The inputs on which reading a limit does not overflow.
pub open spec fn limit_in_range(value: Json) -> bool {
    match limit_head(value) {
        Ok((_, _, es)) => limits_in_range(es),
        Err(_) => true,
    }
}

/// The usage limits of an account on a cluster, in seconds.
#[derive(Debug)]
pub struct SlurmLimit {
    account: String,
    cluster: String,
    cpu_limit: Option<u64>,
    gpu_limit: Option<u64>,
    mem_limit: Option<u64>,
    billing_limit: Option<u64>,
}

impl View for SlurmLimit {
    type V = (Seq<char>, Seq<char>, Limits);

    closed spec fn view(&self) -> Self::V {
        (self.account@, self.cluster@, (self.cpu_limit, self.gpu_limit, self.mem_limit, self.billing_limit))
    }
}

/// What one limit entry does.
fn limit_entry_of(e: &Json) -> (r: Result<Option<(LimitKind, u64)>, Error>)
    ensures
        match r {
            Ok(x) => limit_entry(*e) == Ok::<_, Seq<char>>(x),
            Err(err) => err is Call && limit_entry(*e) == Err::<Option<(LimitKind, u64)>, _>(err.text()),
        },
{
    let kind = match e.get("type") {
        None => return Ok(None),
        Some(t) => match t.as_str() {
            None => return Ok(None),
            Some(k) => k,
        },
    };
    let name = match e.get("name") {
        None => return Ok(None),
        Some(n) => match n.as_str() {
            None => return Err(call_error("Could not get name as string from limit")),
            Some(n) => n,
        },
    };
    let count = match e.get("count") {
        None => return Ok(None),
        Some(c) => match c.as_u64() {
            None => return Ok(None),
            Some(c) => c,
        },
    };
    let k = to_ascii_lowercase(&chars_of(kind));
    let is = |w: &str| -> (b: bool)
        ensures
            b == (k@ == w@),
        {
            let v = chars_of(w);
            if v.len() != k.len() {
                return false;
            }
            let mut i: usize = 0;
            while i < v.len()
                invariant
                    i <= v@.len(),
                    v@.len() == k@.len(),
                    v@ == w@,
                    forall|j: int| 0 <= j < i ==> v@[j] == k@[j],
                decreases v@.len() - i,
            {
                if v[i] != k[i] {
                    return false;
                }
                i = i + 1;
            }
            assert(v@ =~= k@);
            true
        };
    if is("cpu") {
        Ok(Some((LimitKind::Cpu, count)))
    } else if is("mem") {
        Ok(Some((LimitKind::Memory, count)))
    } else if is("gres") && str_eq(name, "gpu") {
        Ok(Some((LimitKind::Gpu, count)))
    } else if is("billing") {
        Ok(Some((LimitKind::Billing, count)))
    } else {
        Ok(None)
    }
}

/// An incomplete entry stops the reading at the first one.
proof fn lemma_limits_stop(s: Seq<Json>, k: int)
    requires
        0 <= k <= s.len(),
        limits_of(s.take(k)) is Err,
    ensures
        limits_of(s) == limits_of(s.take(k)),
    decreases s.len() - k,
{
    if k < s.len() {
        assert(s.take(k + 1).drop_last() =~= s.take(k));
        lemma_limits_stop(s, k + 1);
    } else {
        assert(s.take(k) =~= s);
    }
}

/// The limits that the entries `es` set.
fn limits_from(es: &Vec<Json>) -> (r: Result<Limits, Error>)
    requires
        limits_in_range(es@),
    ensures
        match r {
            Ok(l) => limits_of(es@) == Ok::<_, Seq<char>>(l),
            Err(e) => e is Call && limits_of(es@) == Err::<Limits, _>(e.text()),
        },
{
    let mut cpu: Option<u64> = None;
    let mut gpu: Option<u64> = None;
    let mut mem: Option<u64> = None;
    let mut billing: Option<u64> = None;
    let mut i: usize = 0;
    assert(es@.take(0) =~= Seq::<Json>::empty());
    while i < es.len()
        invariant
            i <= es@.len(),
            limits_in_range(es@),
            limits_of(es@.take(i as int)) == Ok::<_, Seq<char>>((cpu, gpu, mem, billing)),
        decreases es@.len() - i,
    {
        assert(es@.take(i + 1).drop_last() =~= es@.take(i as int));
        assert(es@.take(i + 1).last() == es@[i as int]);
        match limit_entry_of(&es[i]) {
            Err(e) => {
                proof {
                    lemma_limits_stop(es@, i + 1);
                }
                return Err(e);
            },
            Ok(None) => {},
            Ok(Some((kind, minutes))) => {
                assert(limits_of(es@.take(i as int)) is Ok);
                assert(minutes <= MAX_LIMIT_MINUTES);
                let seconds = minutes * 60;
                match kind {
                    LimitKind::Cpu => cpu = Some(seconds),
                    LimitKind::Gpu => gpu = Some(seconds),
                    LimitKind::Memory => mem = Some(seconds),
                    LimitKind::Billing => billing = Some(seconds),
                }
            },
        }
        i = i + 1;
    }
    assert(es@.take(es@.len() as int) =~= es@);
    Ok((cpu, gpu, mem, billing))
}

impl SlurmLimit {
    /// The limits that Slurm's JSON `value` describes for an account on a
    /// cluster.
    pub fn construct(value: &Json) -> (r: Result<Self, Error>)
        requires
            limit_in_range(*value),
        ensures
            match r {
                Ok(l) => limit_fields(*value) == Ok::<_, Seq<char>>(l@),
                Err(e) => e is Call && limit_fields(*value) == Err::<(Seq<char>, Seq<char>, Limits), _>(e.text()),
            },
    {
        let account = required_str(value, "account", "Could not get account from limit", "Could not get account as string from limit")?;
        let cluster = required_str(value, "cluster", "Could not get cluster from limit", "Could not get cluster as string from limit")?;
        let max = match value.get("max") {
            Some(m) => m,
            None => return Err(call_error("Could not get max from limit")),
        };
        let tres = match max.get("tres") {
            Some(t) => t,
            None => return Err(call_error("Could not get tres from max")),
        };
        let group = match tres.get("group") {
            Some(g) => g,
            None => return Err(call_error("Could not get group from tres")),
        };
        let minutes = match group.get("minutes") {
            Some(m) => m,
            None => return Err(call_error("Could not get minutes from group")),
        };
        let entries = match minutes.as_array() {
            Some(es) => es,
            None => return Err(call_error("Limits is not an array")),
        };
        let (cpu_limit, gpu_limit, mem_limit, billing_limit) = limits_from(entries)?;
        let account = clean_account_name(account)?;
        Ok(SlurmLimit { account, cluster: String::from_str(cluster), cpu_limit, gpu_limit, mem_limit, billing_limit })
    }

    pub fn account(&self) -> (r: &str)
        ensures
            r@ == self@.0,
    {
        self.account.as_str()
    }

    pub fn cluster(&self) -> (r: &str)
        ensures
            r@ == self@.1,
    {
        self.cluster.as_str()
    }

    /// The CPU limit, in seconds.
    pub fn cpu_limit(&self) -> (r: Option<u64>)
        ensures
            r == self@.2.0,
    {
        self.cpu_limit
    }

    /// The GPU limit, in seconds.
    pub fn gpu_limit(&self) -> (r: Option<u64>)
        ensures
            r == self@.2.1,
    {
        self.gpu_limit
    }

    /// The memory limit, in seconds.
    pub fn mem_limit(&self) -> (r: Option<u64>)
        ensures
            r == self@.2.2,
    {
        self.mem_limit
    }

    /// The billing limit, in seconds.
    pub fn billing_limit(&self) -> (r: Option<u64>)
        ensures
            r == self@.2.3,
    {
        self.billing_limit
    }
}

/// The clusters that the associations `items` name, each that is a string.
pub open spec fn association_clusters(items: Seq<Json>) -> Set<Seq<char>>
    decreases items.len(),
{
    if items.len() == 0 {
        Set::empty()
    } else {
        let before = association_clusters(items.drop_last());
        match items.last().field("cluster"@) {
            Some(c) => match c.text() {
                Some(t) => before.insert(t),
                None => before,
            },
            None => before,
        }
    }
}

/// The name (in its Slurm form), description, organization and clusters of
/// an account as Slurm describes it; or the message of the first thing
/// missing. Associations that are absent, or not a list, give no clusters.
pub open spec fn account_fields(value: Json) -> Result<(Seq<char>, Seq<char>, Seq<char>, Set<Seq<char>>), Seq<char>> {
    match required_text(value, "name"@, "Could not get name from account"@, "Could not get name as string from account"@) {
        Err(m) => Err(m),
        Ok(name) => match required_text(
            value,
            "description"@,
            "Could not get description from account"@,
            "Could not get description as string from account"@,
        ) {
            Err(m) => Err(m),
            Ok(description) => match required_text(
                value,
                "organization"@,
                "Could not get organization from account"@,
                "Could not get organization as string from account"@,
            ) {
                Err(m) => Err(m),
                Ok(organization) => {
                    let clusters = match value.field("associations"@) {
                        Some(a) => match a.items() {
                            Some(items) => association_clusters(items),
                            None => Set::empty(),
                        },
                        None => Set::empty(),
                    };
                    if trim(name).len() == 0 {
                        Err("Account name is empty"@)
                    } else {
                        Ok((cleaned_name(name), description, organization, clusters))
                    }
                },
            },
        },
    }
}

pub open spec fn text_views(v: Seq<String>) -> Seq<Seq<char>> {
    v.map_values(|s: String| s@)
}

/// A Slurm account: its name, description and organization, the usage
/// limit set on it (in seconds), and the clusters it is associated with.
#[derive(Debug)]
pub struct SlurmAccount {
    name: String,
    description: String,
    organization: String,
    limit: u64,
    clusters: Vec<String>,
}

impl SlurmAccount {
    /// Each cluster is held once.
    #[verifier::type_invariant]
    spec fn clusters_distinct(self) -> bool {
        text_views(self.clusters@).no_duplicates()
    }
}

impl View for SlurmAccount {
    type V = (Seq<char>, Seq<char>, Seq<char>, u64, Set<Seq<char>>);

    closed spec fn view(&self) -> Self::V {
        (self.name@, self.description@, self.organization@, self.limit, text_views(self.clusters@).to_set())
    }
}

/// Whether `name` is among `clusters`.
fn holds_cluster(clusters: &Vec<String>, name: &str) -> (r: bool)
    ensures
        r == text_views(clusters@).contains(name@),
{
    let mut i: usize = 0;
    while i < clusters.len()
        invariant
            i <= clusters@.len(),
            forall|j: int| 0 <= j < i ==> clusters@[j]@ != name@,
        decreases clusters@.len() - i,
    {
        if str_eq(clusters[i].as_str(), name) {
            assert(text_views(clusters@)[i as int] == name@);
            return true;
        }
        i = i + 1;
    }
    assert(!text_views(clusters@).contains(name@)) by {
        if text_views(clusters@).contains(name@) {
            let j = choose|j: int| 0 <= j < text_views(clusters@).len() && text_views(clusters@)[j] == name@;
            assert(clusters@[j]@ == name@);
        }
    }
    false
}

/// The distinct clusters that the associations `items` name.
fn clusters_of(items: &Vec<Json>) -> (r: Vec<String>)
    ensures
        text_views(r@).no_duplicates(),
        text_views(r@).to_set() == association_clusters(items@),
{
    let mut out: Vec<String> = Vec::new();
    let mut i: usize = 0;
    assert(items@.take(0) =~= Seq::<Json>::empty());
    assert(text_views(out@).to_set() =~= Set::<Seq<char>>::empty());
    while i < items.len()
        invariant
            i <= items@.len(),
            text_views(out@).no_duplicates(),
            text_views(out@).to_set() == association_clusters(items@.take(i as int)),
        decreases items@.len() - i,
    {
        assert(items@.take(i + 1).drop_last() =~= items@.take(i as int));
        assert(items@.take(i + 1).last() == items@[i as int]);
        match items[i].get("cluster") {
            Some(c) => match c.as_str() {
                Some(t) => {
                    if !holds_cluster(&out, t) {
                        let ghost before = out@;
                        out.push(String::from_str(t));
                        assert(text_views(out@) =~= text_views(before).push(t@));
                        assert forall|x: Seq<char>| #[trigger] text_views(out@).to_set().contains(x)
                            == text_views(before).to_set().insert(t@).contains(x) by {
                            lemma_seq_contains_push(text_views(before), t@, x);
                        }
                        assert(text_views(out@).to_set() =~= text_views(before).to_set().insert(t@));
                        assert(text_views(out@).no_duplicates()) by {
                            assert forall|a: int, b: int| 0 <= a < b < text_views(out@).len() implies text_views(out@)[a] != text_views(out@)[b] by {
                                if b == before.len() {
                                    assert(text_views(before).contains(text_views(before)[a]));
                                }
                            }
                        }
                    } else {
                        assert(text_views(out@).to_set().contains(t@));
                        assert(text_views(out@).to_set() =~= text_views(out@).to_set().insert(t@));
                    }
                },
                None => {},
            },
            None => {},
        }
        i = i + 1;
    }
    assert(items@.take(items@.len() as int) =~= items@);
    out
}

impl SlurmAccount {
    /// The account that Slurm's JSON `value` describes, with no limit set.
    pub fn construct(value: &Json) -> (r: Result<Self, Error>)
        ensures
            match r {
                Ok(a) => account_fields(*value) == Ok::<_, Seq<char>>((a@.0, a@.1, a@.2, a@.4)) && a@.3 == 0,
                Err(e) => e is Call && account_fields(*value) == Err::<(Seq<char>, Seq<char>, Seq<char>, Set<Seq<char>>), _>(e.text()),
            },
    {
        let name = required_str(value, "name", "Could not get name from account", "Could not get name as string from account")?;
        let description = required_str(
            value,
            "description",
            "Could not get description from account",
            "Could not get description as string from account",
        )?;
        let organization = required_str(
            value,
            "organization",
            "Could not get organization from account",
            "Could not get organization as string from account",
        )?;
        let clusters = match value.get("associations") {
            Some(a) => match a.as_array() {
                Some(items) => clusters_of(items),
                None => Vec::new(),
            },
            None => Vec::new(),
        };
        assert(text_views(clusters@).no_duplicates());
        proof {
            if value.field("associations"@) is None || value.field("associations"@)->Some_0.items() is None {
                assert(text_views(clusters@).to_set() =~= Set::<Seq<char>>::empty());
            }
        }
        let name = clean_account_name(name)?;
        Ok(SlurmAccount {
            name,
            description: String::from_str(description),
            organization: String::from_str(organization),
            limit: 0,
            clusters,
        })
    }

    pub fn name(&self) -> (r: &str)
        ensures
            r@ == self@.0,
    {
        self.name.as_str()
    }

    pub fn description(&self) -> (r: &str)
        ensures
            r@ == self@.1,
    {
        self.description.as_str()
    }

    pub fn organization(&self) -> (r: &str)
        ensures
            r@ == self@.2,
    {
        self.organization.as_str()
    }

    /// The usage limit, in seconds.
    pub fn limit(&self) -> (r: u64)
        ensures
            r == self@.3,
    {
        self.limit
    }

    /// Set the usage limit, in seconds.
    pub fn set_limit(&mut self, limit: u64)
        ensures
            final(self)@ == (old(self)@.0, old(self)@.1, old(self)@.2, limit, old(self)@.4),
    {
        proof {
            use_type_invariant(&*self);
        }
        self.limit = limit;
    }

    /// The clusters the account is associated with, each once.
    pub fn clusters(&self) -> (r: &Vec<String>)
        ensures
            text_views(r@).no_duplicates(),
            text_views(r@).to_set() == self@.4,
    {
        proof {
            use_type_invariant(self);
        }
        &self.clusters
    }

    /// Whether the account is associated with `cluster`.
    pub fn in_cluster(&self, cluster: &str) -> (r: bool)
        ensures
            r == self@.4.contains(cluster@),
    {
        holds_cluster(&self.clusters, cluster)
    }

    /// Whether the account belongs to the organization this agent manages.
    pub fn is_managed(&self) -> (r: bool)
        ensures
            r == (self@.2 == "openportal"@),
    {
        str_eq(self.organization.as_str(), "openportal")
    }
}

impl SlurmAccount {
    /// The account named `account` in Slurm's reply to a query for
    /// accounts; `None` where the reply lists no such account, or lists one
    /// that cannot be read.
    pub fn from_response(response: &Json, account: &str) -> (r: Option<SlurmAccount>)
        ensures
            match named_entry(*response, "accounts"@, account@) {
                Some(a) => match account_fields(a) {
                    Ok(v) => r matches Some(x) && (x@.0, x@.1, x@.2, x@.4) == v && x@.3 == 0,
                    Err(_) => r is None,
                },
                None => r is None,
            },
    {
        match find_named(response, "accounts", account) {
            Some(a) => match SlurmAccount::construct(a) {
                Ok(x) => Some(x),
                Err(_) => None,
            },
            None => None,
        }
    }
}

/// The limits that the associations `items` describe, in order; or the
/// message of the first that cannot be read.
pub open spec fn limit_list(items: Seq<Json>) -> Result<Seq<(Seq<char>, Seq<char>, Limits)>, Seq<char>>
    decreases items.len(),
{
    if items.len() == 0 {
        Ok(Seq::empty())
    } else {
        match limit_list(items.drop_last()) {
            Err(m) => Err(m),
            Ok(before) => match limit_fields(items.last()) {
                Err(m) => Err(m),
                Ok(l) => Ok(before.push(l)),
            },
        }
    }
}

/// Whether every association that is read can be read without overflow.
pub open spec fn limit_list_in_range(items: Seq<Json>) -> bool {
    forall|k: int| 0 <= k < items.len() && #[trigger] limit_list(items.take(k)) is Ok ==> limit_in_range(items[k])
}

/// The first of `ls` for `account` on `cluster`.
pub open spec fn first_limit_for(ls: Seq<(Seq<char>, Seq<char>, Limits)>, account: Seq<char>, cluster: Seq<char>) -> Option<(Seq<char>, Seq<char>, Limits)>
    decreases ls.len(),
{
    if ls.len() == 0 {
        None
    } else if ls[0].0 == account && ls[0].1 == cluster {
        Some(ls[0])
    } else {
        first_limit_for(ls.drop_first(), account, cluster)
    }
}

spec fn limit_views(v: Seq<SlurmLimit>) -> Seq<(Seq<char>, Seq<char>, Limits)> {
    v.map_values(|l: SlurmLimit| l@)
}

proof fn lemma_limit_list_stops(s: Seq<Json>, k: int)
    requires
        0 <= k <= s.len(),
        limit_list(s.take(k)) is Err,
    ensures
        limit_list(s) == limit_list(s.take(k)),
    decreases s.len() - k,
{
    if k < s.len() {
        assert(s.take(k + 1).drop_last() =~= s.take(k));
        lemma_limit_list_stops(s, k + 1);
    } else {
        assert(s.take(k) =~= s);
    }
}

/// The limits that the associations `items` describe.
fn limits_of_list(items: &Vec<Json>) -> (r: Result<Vec<SlurmLimit>, Error>)
    requires
        limit_list_in_range(items@),
    ensures
        match r {
            Ok(v) => limit_list(items@) == Ok::<_, Seq<char>>(limit_views(v@)),
            Err(e) => e is Call && limit_list(items@) == Err::<Seq<(Seq<char>, Seq<char>, Limits)>, _>(e.text()),
        },
{
    let mut out: Vec<SlurmLimit> = Vec::new();
    let mut i: usize = 0;
    assert(items@.take(0) =~= Seq::<Json>::empty());
    assert(limit_views(out@) =~= Seq::empty());
    while i < items.len()
        invariant
            i <= items@.len(),
            limit_list_in_range(items@),
            limit_list(items@.take(i as int)) == Ok::<_, Seq<char>>(limit_views(out@)),
        decreases items@.len() - i,
    {
        assert(items@.take(i + 1).drop_last() =~= items@.take(i as int));
        assert(items@.take(i + 1).last() == items@[i as int]);
        assert(limit_in_range(items@[i as int]));
        let l = match SlurmLimit::construct(&items[i]) {
            Ok(l) => l,
            Err(e) => {
                proof {
                    lemma_limit_list_stops(items@, i + 1);
                }
                return Err(e);
            },
        };
        let ghost before = out@;
        out.push(l);
        assert(limit_views(out@) =~= limit_views(before).push(l@));
        i = i + 1;
    }
    assert(items@.take(items@.len() as int) =~= items@);
    Ok(out)
}

/// The limit of `account` on `cluster` in Slurm's reply to a query for an
/// account's associations: every association is read first (an error in
/// any is the error), and an account with no limit there is not found.
pub fn account_limit(response: &Json, account: &str, cluster: &str) -> (r: Result<SlurmLimit, Error>)
    requires
        response.field("associations"@) matches Some(l) && l.items() matches Some(items) ==> limit_list_in_range(items),
    ensures
        match response.field("associations"@) {
            None => r matches Err(Error::NotFound(m)) && m@ == account@,
            Some(l) => match l.items() {
                None => r matches Err(e) && e is Call && e.text() == "Limits is not an array"@,
                Some(items) => match limit_list(items) {
                    Err(m) => r matches Err(e) && e is Call && e.text() == m,
                    Ok(ls) => match first_limit_for(ls, account@, cluster@) {
                        Some(v) => r matches Ok(x) && x@ == v,
                        None => r matches Err(Error::NotFound(m)) && m@ == account@,
                    },
                },
            },
        },
{
    let limits = match response.get("associations") {
        None => Vec::new(),
        Some(l) => match l.as_array() {
            None => return Err(call_error("Limits is not an array")),
            Some(items) => {
                let ghost listed = response.field("associations"@)->Some_0.items()->Some_0;
                assert(listed == items@);
                limits_of_list(items)?
            },
        },
    };
    let ghost ls = limit_views(limits@);
    assert(response.field("associations"@) is None ==> ls =~= Seq::empty());
    let mut i: usize = 0;
    assert(ls.skip(0) =~= ls);
    while i < limits.len()
        invariant
            i <= limits@.len(),
            ls == limit_views(limits@),
            first_limit_for(ls, account@, cluster@) == first_limit_for(ls.skip(i as int), account@, cluster@),
            match response.field("associations"@) {
                None => ls.len() == 0,
                Some(l) => match l.items() {
                    Some(items) => limit_list(items) == Ok::<_, Seq<char>>(ls),
                    None => false,
                },
            },
        decreases limits@.len() - i,
    {
        assert(ls.skip(i as int).drop_first() =~= ls.skip(i + 1));
        assert(ls.skip(i as int)[0] == limits@[i as int]@);
        if str_eq(limits[i].account(), account) && str_eq(limits[i].cluster(), cluster) {
            let mut limits = limits;
            let found = limits.swap_remove(i);
            return Ok(found);
        }
        i = i + 1;
    }
    Err(Error::NotFound(String::from_str(account)))
}

/// Whether the distinct names `a` and `b` hold the same clusters.
fn same_clusters(a: &Vec<String>, b: &Vec<String>) -> (r: bool)
    requires
        text_views(a@).no_duplicates(),
        text_views(b@).no_duplicates(),
    ensures
        r == (text_views(a@).to_set() == text_views(b@).to_set()),
{
    proof {
        text_views(a@).unique_seq_to_set();
        text_views(b@).unique_seq_to_set();
    }
    if a.len() != b.len() {
        return false;
    }
    let mut i: usize = 0;
    while i < a.len()
        invariant
            i <= a@.len(),
            a@.len() == b@.len(),
            forall|j: int| 0 <= j < i ==> #[trigger] text_views(b@).contains(text_views(a@)[j]),
        decreases a@.len() - i,
    {
        if !holds_cluster(b, a[i].as_str()) {
            assert(text_views(a@)[i as int] == a@[i as int]@);
            assert(text_views(a@).to_set().contains(a@[i as int]@));
            return false;
        }
        assert(text_views(a@)[i as int] == a@[i as int]@);
        i = i + 1;
    }
    proof {
        broadcast use vstd::seq_lib::seq_to_set_is_finite;
        assert(text_views(a@).to_set().subset_of(text_views(b@).to_set())) by {
            assert forall|x: Seq<char>| text_views(a@).to_set().contains(x) implies text_views(b@).to_set().contains(x) by {
                let j = choose|j: int| 0 <= j < text_views(a@).len() && text_views(a@)[j] == x;
                assert(text_views(b@).contains(text_views(a@)[j]));
            }
        }
        vstd::set_lib::lemma_subset_equality(text_views(a@).to_set(), text_views(b@).to_set());
    }
    true
}

impl SlurmAccount {
    /// Whether two accounts are the same: name, organization and clusters
    /// alike, and descriptions alike but for ASCII case. The limit is not
    /// compared.
    pub open spec fn same_account(&self, other: &SlurmAccount) -> bool {
        &&& self@.0 == other@.0
        &&& self@.2 == other@.2
        &&& lower(self@.1) == lower(other@.1)
        &&& self@.4 == other@.4
    }
}

impl PartialEq for SlurmAccount {
    fn eq(&self, other: &SlurmAccount) -> (r: bool) {
        proof {
            use_type_invariant(self);
            use_type_invariant(other);
        }
        str_eq(self.name.as_str(), other.name.as_str()) && str_eq(
            self.organization.as_str(),
            other.organization.as_str(),
        ) && eq_ignore_ascii_case(self.description.as_str(), other.description.as_str()) && same_clusters(
            &self.clusters,
            &other.clusters,
        )
    }
}

impl vstd::std_specs::cmp::PartialEqSpecImpl for SlurmAccount {
    open spec fn obeys_eq_spec() -> bool {
        true
    }

    open spec fn eq_spec(&self, other: &SlurmAccount) -> bool {
        self.same_account(other)
    }
}

/// Whether every limit read from `es` is few enough minutes; see
/// `limits_in_range`.
fn limits_in_range_check(es: &Vec<Json>) -> (r: bool)
    ensures
        r == limits_in_range(es@),
{
    let mut i: usize = 0;
    while i < es.len()
        invariant
            i <= es@.len(),
            forall|k: int| 0 <= k < i && #[trigger] limits_of(es@.take(k)) is Ok ==> match limit_entry(es@[k]) {
                Ok(Some((_, minutes))) => minutes <= MAX_LIMIT_MINUTES,
                _ => true,
            },
            limits_of(es@.take(i as int)) is Ok,
        decreases es@.len() - i,
    {
        assert(es@.take(i + 1).drop_last() =~= es@.take(i as int));
        assert(es@.take(i + 1).last() == es@[i as int]);
        match limit_entry_of(&es[i]) {
            Err(_) => {
                proof {
                    assert forall|k: int| 0 <= k < es@.len() && #[trigger] limits_of(es@.take(k)) is Ok implies match limit_entry(es@[k]) {
                        Ok(Some((_, minutes))) => minutes <= MAX_LIMIT_MINUTES,
                        _ => true,
                    } by {
                        if k > i {
                            assert(es@.take(k).take(i + 1) =~= es@.take(i + 1));
                            lemma_limits_stop(es@.take(k), i + 1);
                        }
                    }
                }
                return true;
            },
            Ok(Some((_, minutes))) => {
                if minutes > MAX_LIMIT_MINUTES {
                    return false;
                }
            },
            Ok(None) => {},
        }
        i = i + 1;
    }
    true
}

impl SlurmLimit {
    /// Whether the limit `value` can be read without overflow: what
    /// `construct` asks of its caller.
    pub fn limit_in_range_check(value: &Json) -> (r: bool)
        ensures
            r == limit_in_range(*value),
    {
        let head_ok = required_str(value, "account", "Could not get account from limit", "Could not get account as string from limit").is_ok()
            && required_str(value, "cluster", "Could not get cluster from limit", "Could not get cluster as string from limit").is_ok();
        if !head_ok {
            return true;
        }
        let entries = match value.get("max") {
            Some(max) => match max.get("tres") {
                Some(tres) => match tres.get("group") {
                    Some(group) => match group.get("minutes") {
                        Some(minutes) => match minutes.as_array() {
                            Some(es) => es,
                            None => return true,
                        },
                        None => return true,
                    },
                    None => return true,
                },
                None => return true,
            },
            None => return true,
        };
        limits_in_range_check(entries)
    }
}

/// Whether every association read from `items` can be read without
/// overflow: what `account_limit` asks of its caller.
pub fn limit_list_in_range_check(items: &Vec<Json>) -> (r: bool)
    ensures
        r == limit_list_in_range(items@),
{
    let mut i: usize = 0;
    assert(items@.take(0) =~= Seq::<Json>::empty());
    while i < items.len()
        invariant
            i <= items@.len(),
            forall|k: int| 0 <= k < i && #[trigger] limit_list(items@.take(k)) is Ok ==> limit_in_range(items@[k]),
            limit_list(items@.take(i as int)) is Ok,
        decreases items@.len() - i,
    {
        assert(items@.take(i + 1).drop_last() =~= items@.take(i as int));
        assert(items@.take(i + 1).last() == items@[i as int]);
        if !SlurmLimit::limit_in_range_check(&items[i]) {
            return false;
        }
        if SlurmLimit::construct(&items[i]).is_err() {
            proof {
                assert forall|k: int| 0 <= k < items@.len() && #[trigger] limit_list(items@.take(k)) is Ok implies limit_in_range(items@[k]) by {
                    if k > i {
                        assert(items@.take(k).take(i + 1) =~= items@.take(i + 1));
                        lemma_limit_list_stops(items@.take(k), i + 1);
                    }
                }
            }
            return true;
        }
        i = i + 1;
    }
    true
}

} // verus!
