use vstd::prelude::*;
use vstd::string::*;

use crate::error::Error;
use crate::slurm::{SlurmNode, SlurmNodes, SlurmUser};
use crate::slurm_account::SlurmAccount;
use crate::text::{chars_of, first_index, keep, lemma_first_index, string_of, trim, trim_chars};

verus! {

broadcast use vstd::string::group_string_axioms;

/// Upper bounds on the cached maps.
pub const MAX_CACHED_ACCOUNTS: usize = 10_000;

pub const MAX_CACHED_USERS: usize = 100_000;

pub const MAX_CACHED_REPORTS: usize = 10_000;

pub const MAX_CACHED_DATES_PER_PROJECT: usize = 100;

/// Drop entries, first added first, until `map` holds at most `max`. Used
/// where there is no access order to exploit: losing one entry costs one
/// re-fetch.
pub fn evict_arbitrary_until<K, V>(map: &mut Vec<(K, V)>, max: usize)
    ensures
        final(map)@ == evicted(old(map)@, max as nat),
{
    drop_first_until(map, max);
}

/// The position of the first entry with the smallest key.
pub open spec fn min_key_index<V>(s: Seq<(u64, V)>) -> int
    decreases s.len(),
{
    if s.len() <= 1 {
        0
    } else {
        let j = min_key_index(s.drop_last());
        if s.last().0 < s[j].0 {
            s.len() - 1
        } else {
            j
        }
    }
}

pub proof fn lemma_min_key_index<V>(s: Seq<(u64, V)>)
    requires
        s.len() > 0,
    ensures
        0 <= min_key_index(s) < s.len(),
        forall|i: int| 0 <= i < s.len() ==> s[min_key_index(s)].0 <= #[trigger] s[i].0,
    decreases s.len(),
{
    if s.len() > 1 {
        lemma_min_key_index(s.drop_last());
        assert forall|i: int| 0 <= i < s.len() implies s[min_key_index(s)].0 <= #[trigger] s[i].0 by {
            if i < s.len() - 1 {
                assert(s.drop_last()[i] == s[i]);
            }
        }
    }
}

/// The entries left once the smallest-keyed have been dropped, one at a
/// time, until at most `max` remain.
pub open spec fn drop_oldest<V>(s: Seq<(u64, V)>, max: nat) -> Seq<(u64, V)>
    decreases s.len(),
{
    if s.len() > max && s.len() > 0 {
        proof {
            lemma_min_key_index(s);
        }
        drop_oldest(s.remove(min_key_index(s)), max)
    } else {
        s
    }
}

fn min_key_position<V>(map: &Vec<(u64, V)>) -> (r: usize)
    requires
        map@.len() > 0,
    ensures
        r == min_key_index(map@),
{
    let mut best: usize = 0;
    let mut i: usize = 1;
    while i < map.len()
        invariant
            1 <= i <= map@.len(),
            best == min_key_index(map@.take(i as int)),
            best < i,
        decreases map@.len() - i,
    {
        assert(map@.take(i + 1).drop_last() =~= map@.take(i as int));
        assert(map@.take(i + 1)[best as int] == map@[best as int]);
        if map[i].0 < map[best].0 {
            best = i;
        }
        i = i + 1;
    }
    assert(map@.take(map@.len() as int) =~= map@);
    best
}

/// The keys of the entries, in order.
pub open spec fn entry_keys<V>(s: Seq<(u64, V)>) -> Seq<u64> {
    s.map_values(|e: (u64, V)| e.0)
}

proof fn lemma_remove_keeps_keys_distinct<V>(s: Seq<(u64, V)>, i: int)
    requires
        0 <= i < s.len(),
        entry_keys(s).no_duplicates(),
    ensures
        entry_keys(s.remove(i)).no_duplicates(),
{
    let t = s.remove(i);
    assert forall|a: int, b: int| 0 <= a < t.len() && 0 <= b < t.len() && a != b implies entry_keys(t)[a]
        != entry_keys(t)[b] by {
        let a2 = if a < i { a } else { a + 1 };
        let b2 = if b < i { b } else { b + 1 };
        assert(t[a] == s[a2] && t[b] == s[b2]);
        assert(entry_keys(s)[a2] != entry_keys(s)[b2]);
    }
}

/// Eviction keeps keys distinct: a map keyed by date stays one.
pub proof fn law_eviction_keeps_keys_distinct<V>(s: Seq<(u64, V)>, max: nat)
    requires
        entry_keys(s).no_duplicates(),
    ensures
        entry_keys(drop_oldest(s, max)).no_duplicates(),
    decreases s.len(),
{
    if s.len() > max && s.len() > 0 {
        lemma_min_key_index(s);
        lemma_remove_keeps_keys_distinct(s, min_key_index(s));
        law_eviction_keeps_keys_distinct(s.remove(min_key_index(s)), max);
    }
}

/// Drop the entries with the smallest keys (the oldest dates) until `map`
/// holds at most `max`: for time series, the recent end is what is asked for.
/// Keys that were distinct stay distinct.
pub fn evict_oldest_until<V>(map: &mut Vec<(u64, V)>, max: usize)
    ensures
        final(map)@ == drop_oldest(old(map)@, max as nat),
        entry_keys(old(map)@).no_duplicates() ==> entry_keys(final(map)@).no_duplicates(),
{
    proof {
        if entry_keys(map@).no_duplicates() {
            law_eviction_keeps_keys_distinct(map@, max as nat);
        }
    }
    while map.len() > max
        invariant
            drop_oldest(map@, max as nat) == drop_oldest(old(map)@, max as nat),
        decreases map@.len(),
    {
        let o = min_key_position(map);
        proof {
            lemma_min_key_index(map@);
        }
        let ghost before = map@;
        let _ = map.remove(o);
        assert(map@ == before.remove(o as int));
    }
}

proof fn lemma_remove_contains<A>(s: Seq<A>, i: int, x: A)
    requires
        0 <= i < s.len(),
        s.remove(i).contains(x),
    ensures
        s.contains(x),
{
    let k = choose|k: int| 0 <= k < s.remove(i).len() && s.remove(i)[k] == x;
    if k < i {
        assert(s[k] == x);
    } else {
        assert(s[k + 1] == x);
    }
}

/// Eviction keeps `min(len, max)` entries, all taken from the map, and
/// never drops an entry while keeping one with a smaller key: what is
/// dropped is the oldest.
pub proof fn law_eviction_drops_the_oldest<V>(s: Seq<(u64, V)>, max: nat)
    ensures
        drop_oldest(s, max).len() == if s.len() > max {
            max as int
        } else {
            s.len() as int
        },
        forall|e: (u64, V)| #[trigger] drop_oldest(s, max).contains(e) ==> s.contains(e),
        forall|e: (u64, V), f: (u64, V)|
            #[trigger] s.contains(e) && !drop_oldest(s, max).contains(e) && #[trigger] drop_oldest(
                s,
                max,
            ).contains(f) ==> e.0 <= f.0,
    decreases s.len(),
{
    if s.len() > max && s.len() > 0 {
        lemma_min_key_index(s);
        let m = min_key_index(s);
        let t = s.remove(m);
        law_eviction_drops_the_oldest(t, max);
        let r = drop_oldest(t, max);
        assert(drop_oldest(s, max) == r);
        assert forall|e: (u64, V)| #[trigger] r.contains(e) implies s.contains(e) by {
            lemma_remove_contains(s, m, e);
        }
        assert forall|e: (u64, V), f: (u64, V)|
            #[trigger] s.contains(e) && !r.contains(e) && #[trigger] r.contains(f) implies e.0 <= f.0 by {
            lemma_remove_contains(s, m, f);
            let kf = choose|k: int| 0 <= k < s.len() && s[k] == f;
            let ke = choose|k: int| 0 <= k < s.len() && s[k] == e;
            if ke == m {
                assert(s[m].0 <= s[kf].0);
            } else {
                let k2 = if ke < m { ke } else { ke - 1 };
                assert(t[k2] == e);
                assert(t.contains(e));
            }
        }
    }
}


/// The cluster assumed when none has been set.
pub open spec fn default_cluster() -> Seq<char> {
    "linux"@
}

pub open spec fn text_of(o: Option<String>) -> Option<Seq<char>> {
    match o {
        Some(s) => Some(s@),
        None => None,
    }
}

/// What the agent has learned about the cluster it manages, kept so that
/// `slurmctld` is asked as little as possible.
#[derive(Debug)]
pub struct Database {
    cluster: Option<String>,
    partition: Option<String>,
    parent_account: String,
    accounts: Vec<SlurmAccount>,
    users: Vec<SlurmUser>,
    nodes: Option<SlurmNodes>,
}

impl Database {
    /// The cluster set, if one has been.
    pub closed spec fn cluster_spec(&self) -> Option<Seq<char>> {
        text_of(self.cluster)
    }

    pub closed spec fn partition_spec(&self) -> Option<Seq<char>> {
        text_of(self.partition)
    }

    pub closed spec fn parent_account_spec(&self) -> Seq<char> {
        self.parent_account@
    }

    /// The accounts cached, in the order they were added.
    pub closed spec fn accounts_spec(&self) -> Seq<AccountView> {
        self.accounts@.map_values(|a: SlurmAccount| a@)
    }

    /// The users cached, in the order they were added.
    pub closed spec fn users_spec(&self) -> Seq<(Seq<char>, Option<Seq<char>>, Seq<(Seq<char>, Seq<char>, Seq<char>)>)> {
        self.users@.map_values(|u: SlurmUser| u@)
    }

    pub closed spec fn has_nodes(&self) -> bool {
        self.nodes is Some
    }

    pub closed spec fn nodes_spec(&self) -> SlurmNodes {
        self.nodes.unwrap()
    }

    pub fn new() -> (r: Self)
        ensures
            r.cluster_spec() is None,
            r.partition_spec() is None,
            r.parent_account_spec() == Seq::<char>::empty(),
            r.users_spec() == Seq::<(Seq<char>, Option<Seq<char>>, Seq<(Seq<char>, Seq<char>, Seq<char>)>)>::empty(),
            r.accounts_spec() == Seq::<AccountView>::empty(),
            !r.has_nodes(),
    {
        let r = Database {
            cluster: None,
            partition: None,
            parent_account: String::new(),
            accounts: Vec::new(),
            users: Vec::new(),
            nodes: None,
        };
        assert(r.users_spec() =~= Seq::empty());
        assert(r.accounts_spec() =~= Seq::empty());
        r
    }

    pub fn get_option_cluster(&self) -> (r: Option<String>)
        ensures
            text_of(r) == self.cluster_spec(),
    {
        match &self.cluster {
            Some(c) => Some(c.clone()),
            None => None,
        }
    }

    /// The cluster managed: the one set, else `linux`.
    pub fn get_cluster(&self) -> (r: String)
        ensures
            r@ == match self.cluster_spec() {
                Some(c) => c,
                None => default_cluster(),
            },
    {
        match &self.cluster {
            Some(c) => c.clone(),
            None => String::from_str("linux"),
        }
    }

    /// Manage `cluster`. What was cached about another cluster is dropped.
    pub fn set_cluster(&mut self, cluster: &str)
        ensures
            final(self).cluster_spec() == Some(cluster@),
            old(self).cluster_spec() != Some(cluster@) ==> final(self).users_spec().len() == 0,
            old(self).cluster_spec() == Some(cluster@) ==> final(self).users_spec() == evicted(old(self).users_spec(), MAX_CACHED_USERS as nat),
            old(self).cluster_spec() != Some(cluster@) ==> final(self).accounts_spec().len() == 0,
            old(self).cluster_spec() == Some(cluster@) ==> final(self).accounts_spec() == evicted(old(self).accounts_spec(), MAX_CACHED_ACCOUNTS as nat),
            final(self).partition_spec() == old(self).partition_spec(),
            final(self).parent_account_spec() == old(self).parent_account_spec(),
            final(self).has_nodes() == old(self).has_nodes(),
            final(self).has_nodes() ==> final(self).nodes_spec() == old(self).nodes_spec(),
    {
        self.enforce_bounds();
        let same = match &self.cluster {
            Some(c) => crate::text::str_eq(c.as_str(), cluster),
            None => false,
        };
        if !same {
            self.users = Vec::new();
            self.accounts = Vec::new();
        }
        self.cluster = Some(String::from_str(cluster));
        assert(self.users_spec() =~= (if same { self.users_spec() } else { Seq::empty() }));
        assert(self.accounts_spec() =~= (if same { self.accounts_spec() } else { Seq::empty() }));
    }

    pub fn get_partition(&self) -> (r: Option<String>)
        ensures
            text_of(r) == self.partition_spec(),
    {
        match &self.partition {
            Some(p) => Some(p.clone()),
            None => None,
        }
    }

    /// Submit to `partition`, trimmed; a blank one means the default.
    pub fn set_partition(&mut self, partition: &str)
        ensures
            final(self).partition_spec() == if trim(partition@).len() == 0 {
                None
            } else {
                Some(trim(partition@))
            },
            final(self).cluster_spec() == old(self).cluster_spec(),
            final(self).parent_account_spec() == old(self).parent_account_spec(),
            final(self).users_spec() == evicted(old(self).users_spec(), MAX_CACHED_USERS as nat),
            final(self).accounts_spec() == evicted(old(self).accounts_spec(), MAX_CACHED_ACCOUNTS as nat),
            final(self).has_nodes() == old(self).has_nodes(),
            final(self).has_nodes() ==> final(self).nodes_spec() == old(self).nodes_spec(),
    {
        self.enforce_bounds();
        let t = trim_chars(&chars_of(partition));
        if t.len() == 0 {
            self.partition = None;
        } else {
            self.partition = Some(string_of(&t));
        }
    }

    /// Create accounts under `parent_account`, trimmed; a blank one is a bug.
    pub fn set_parent_account(&mut self, parent_account: &str) -> (r: Result<(), Error>)
        ensures
            trim(parent_account@).len() == 0 ==> (r matches Err(Error::Bug(m)) && m@
                == "Parent account cannot be empty"@) && final(self).parent_account_spec()
                == old(self).parent_account_spec() && final(self).users_spec() == old(self).users_spec()
                && final(self).accounts_spec() == old(self).accounts_spec(),
            trim(parent_account@).len() > 0 ==> r is Ok && final(self).parent_account_spec() == trim(
                parent_account@,
            ) && final(self).users_spec() == evicted(old(self).users_spec(), MAX_CACHED_USERS as nat)
                && final(self).accounts_spec() == evicted(old(self).accounts_spec(), MAX_CACHED_ACCOUNTS as nat),
            final(self).cluster_spec() == old(self).cluster_spec(),
            final(self).partition_spec() == old(self).partition_spec(),
            final(self).has_nodes() == old(self).has_nodes(),
            final(self).has_nodes() ==> final(self).nodes_spec() == old(self).nodes_spec(),
    {
        let t = trim_chars(&chars_of(parent_account));
        if t.len() == 0 {
            return Err(Error::Bug(String::from_str("Parent account cannot be empty")));
        }
        self.enforce_bounds();
        self.parent_account = string_of(&t);
        Ok(())
    }

    /// The parent account; not having set one is a bug.
    pub fn get_parent_account(&self) -> (r: Result<String, Error>)
        ensures
            self.parent_account_spec().len() == 0 ==> (r matches Err(Error::Bug(m)) && m@
                == "Parent account has not been set"@),
            self.parent_account_spec().len() > 0 ==> (r matches Ok(a) && a@ == self.parent_account_spec()),
    {
        if self.parent_account.as_str().is_empty() {
            return Err(Error::Bug(String::from_str("Parent account has not been set")));
        }
        Ok(self.parent_account.clone())
    }

    /// Keep the user and account caches within `MAX_CACHED_USERS` and
    /// `MAX_CACHED_ACCOUNTS`, dropping the entries added first.
    fn enforce_bounds(&mut self)
        ensures
            final(self).users_spec() == evicted(old(self).users_spec(), MAX_CACHED_USERS as nat),
            final(self).accounts_spec() == evicted(old(self).accounts_spec(), MAX_CACHED_ACCOUNTS as nat),
            final(self).cluster == old(self).cluster,
            final(self).partition == old(self).partition,
            final(self).parent_account == old(self).parent_account,
            final(self).nodes == old(self).nodes,
    {
        let ghost before = self.users@;
        drop_first_until(&mut self.users, MAX_CACHED_USERS);
        assert(self.users@.map_values(|u: SlurmUser| u@) =~= evicted(
            before.map_values(|u: SlurmUser| u@),
            MAX_CACHED_USERS as nat,
        ));
        let ghost accounts_before = self.accounts@;
        let mut accounts: Vec<SlurmAccount> = Vec::new();
        std::mem::swap(&mut accounts, &mut self.accounts);
        drop_first_until(&mut accounts, MAX_CACHED_ACCOUNTS);
        self.accounts = accounts;
        assert(self.accounts@.map_values(|a: SlurmAccount| a@) =~= evicted(
            accounts_before.map_values(|a: SlurmAccount| a@),
            MAX_CACHED_ACCOUNTS as nat,
        ));
    }
}

/// The entries left once the first added have been dropped until at most
/// `max` remain.
pub open spec fn evicted<A>(s: Seq<A>, max: nat) -> Seq<A> {
    if s.len() > max {
        s.skip(s.len() - max)
    } else {
        s
    }
}

fn drop_first_until<T>(users: &mut Vec<T>, max: usize)
    ensures
        final(users)@ == evicted(old(users)@, max as nat),
{
    let n = users.len();
    if n <= max {
        return;
    }
    let drop = n - max;
    let ghost start = users@;
    let mut i: usize = 0;
    while i < drop
        invariant
            i <= drop,
            drop == start.len() - max,
            n == start.len(),
            users@ == start.skip(i as int),
        decreases drop - i,
    {
        let _ = users.remove(0);
        i = i + 1;
        assert(users@ =~= start.skip(i as int));
    }
}


/// The view of a cached user: name, default account and associations.
pub type UserView = (Seq<char>, Option<Seq<char>>, Seq<(Seq<char>, Seq<char>, Seq<char>)>);

pub open spec fn user_names(s: Seq<UserView>) -> Seq<Seq<char>> {
    s.map_values(|u: UserView| u.0)
}

/// The cached users with `u` stored under its name: in place of the first
/// user of that name, or appended.
pub open spec fn user_put(s: Seq<UserView>, u: UserView) -> Seq<UserView> {
    let i = first_index(user_names(s), u.0);
    if i >= 0 {
        s.update(i, u)
    } else {
        s.push(u)
    }
}

impl Database {
    fn find_user(&self, name: &str) -> (r: Option<usize>)
        ensures
            r is None ==> first_index(user_names(self.users_spec()), name@) < 0,
            r matches Some(i) ==> i == first_index(user_names(self.users_spec()), name@) && i
                < self.users@.len(),
    {
        let ghost names = user_names(self.users_spec());
        proof {
            lemma_first_index(names, name@);
        }
        let mut i: usize = 0;
        while i < self.users.len()
            invariant
                i <= self.users@.len(),
                names == user_names(self.users_spec()),
                names.len() == self.users@.len(),
                forall|j: int| 0 <= j < i ==> names[j] != name@,
            decreases self.users@.len() - i,
        {
            assert(names[i as int] == self.users@[i as int]@.0);
            if crate::text::str_eq(self.users[i].name(), name) {
                proof {
                    lemma_first_index(names, name@);
                }
                return Some(i);
            }
            i = i + 1;
        }
        None
    }

    /// Cache `user` under its name, replacing the user of that name.
    pub fn add_user(&mut self, user: SlurmUser)
        ensures
            final(self).users_spec() == user_put(
                evicted(old(self).users_spec(), MAX_CACHED_USERS as nat),
                user@,
            ),
            final(self).accounts_spec() == evicted(old(self).accounts_spec(), MAX_CACHED_ACCOUNTS as nat),
            final(self).cluster_spec() == old(self).cluster_spec(),
            final(self).partition_spec() == old(self).partition_spec(),
            final(self).parent_account_spec() == old(self).parent_account_spec(),
            final(self).has_nodes() == old(self).has_nodes(),
            final(self).has_nodes() ==> final(self).nodes_spec() == old(self).nodes_spec(),
    {
        self.enforce_bounds();
        let ghost before = self.users_spec();
        let ghost u = user@;
        let found = self.find_user(user.name());
        match found {
            Some(i) => {
                self.users.set(i, user);
            },
            None => {
                self.users.push(user);
            },
        }
        assert(self.users_spec() =~= user_put(before, u));
    }

    /// The cached user called `name`, if any.
    pub fn get_user(&self, name: &str) -> (r: Option<&SlurmUser>)
        ensures
            first_index(user_names(self.users_spec()), name@) < 0 ==> r is None,
            first_index(user_names(self.users_spec()), name@) >= 0 ==> (r matches Some(u) && u@
                == self.users_spec()[first_index(user_names(self.users_spec()), name@)]),
    {
        match self.find_user(name) {
            Some(i) => Some(&self.users[i]),
            None => None,
        }
    }

    /// Forget the cached user called `name`.
    pub fn remove_user(&mut self, name: &str)
        ensures
            final(self).users_spec() == ({
                let s = evicted(old(self).users_spec(), MAX_CACHED_USERS as nat);
                let i = first_index(user_names(s), name@);
                if i >= 0 {
                    s.remove(i)
                } else {
                    s
                }
            }),
            final(self).accounts_spec() == evicted(old(self).accounts_spec(), MAX_CACHED_ACCOUNTS as nat),
            final(self).cluster_spec() == old(self).cluster_spec(),
            final(self).partition_spec() == old(self).partition_spec(),
            final(self).parent_account_spec() == old(self).parent_account_spec(),
            final(self).has_nodes() == old(self).has_nodes(),
            final(self).has_nodes() ==> final(self).nodes_spec() == old(self).nodes_spec(),
    {
        self.enforce_bounds();
        let ghost before = self.users_spec();
        match self.find_user(name) {
            Some(i) => {
                let _ = self.users.remove(i);
                assert(self.users_spec() =~= before.remove(i as int));
            },
            None => {},
        }
    }

    /// Forget every cached account and user.
    pub fn clear(&mut self)
        ensures
            final(self).users_spec().len() == 0,
            final(self).accounts_spec().len() == 0,
            final(self).cluster_spec() == old(self).cluster_spec(),
            final(self).partition_spec() == old(self).partition_spec(),
            final(self).parent_account_spec() == old(self).parent_account_spec(),
            final(self).has_nodes() == old(self).has_nodes(),
            final(self).has_nodes() ==> final(self).nodes_spec() == old(self).nodes_spec(),
    {
        self.users = Vec::new();
        self.accounts = Vec::new();
        assert(self.accounts_spec() =~= Seq::empty());
    }

    /// Use `node` for every node name not listed.
    pub fn set_default_node(&mut self, node: &SlurmNode)
        ensures
            final(self).has_nodes(),
            final(self).nodes_spec().default_node() == *node,
            old(self).has_nodes() ==> final(self).nodes_spec().node_map() == old(self).nodes_spec().node_map(),
            !old(self).has_nodes() ==> final(self).nodes_spec().node_map() == Map::<Seq<char>, SlurmNode>::empty(),
            final(self).users_spec() == evicted(old(self).users_spec(), MAX_CACHED_USERS as nat),
            final(self).accounts_spec() == evicted(old(self).accounts_spec(), MAX_CACHED_ACCOUNTS as nat),
            final(self).cluster_spec() == old(self).cluster_spec(),
            final(self).partition_spec() == old(self).partition_spec(),
            final(self).parent_account_spec() == old(self).parent_account_spec(),
    {
        self.enforce_bounds();
        match &mut self.nodes {
            Some(nodes) => nodes.set_default(node),
            None => {
                self.nodes = Some(SlurmNodes::new(node));
            },
        }
    }

    /// Name the node type `node`; before any node is known, it is also the
    /// default.
    pub fn set_node(&mut self, name: &str, node: &SlurmNode)
        ensures
            final(self).has_nodes(),
            old(self).has_nodes() ==> final(self).nodes_spec().node_map() == old(self).nodes_spec().node_map().insert(name@, *node)
                && final(self).nodes_spec().default_node() == old(self).nodes_spec().default_node(),
            !old(self).has_nodes() ==> final(self).nodes_spec().node_map() == Map::<Seq<char>, SlurmNode>::empty().insert(name@, *node)
                && final(self).nodes_spec().default_node() == *node,
            final(self).users_spec() == evicted(old(self).users_spec(), MAX_CACHED_USERS as nat),
            final(self).accounts_spec() == evicted(old(self).accounts_spec(), MAX_CACHED_ACCOUNTS as nat),
            final(self).cluster_spec() == old(self).cluster_spec(),
            final(self).partition_spec() == old(self).partition_spec(),
            final(self).parent_account_spec() == old(self).parent_account_spec(),
    {
        self.enforce_bounds();
        match &mut self.nodes {
            Some(nodes) => nodes.set(name, node),
            None => {
                let mut nodes = SlurmNodes::new(node);
                nodes.set(name, node);
                self.nodes = Some(nodes);
            },
        }
    }

    /// The default node type; knowing none is a bug.
    pub fn get_default_node(&self) -> (r: Result<SlurmNode, Error>)
        ensures
            self.has_nodes() ==> r == Ok::<SlurmNode, Error>(self.nodes_spec().default_node()),
            !self.has_nodes() ==> (r matches Err(Error::Bug(m)) && m@ == "No nodes have been set in the cache"@),
    {
        match &self.nodes {
            Some(nodes) => Ok(*nodes.get_default()),
            None => Err(Error::Bug(String::from_str("No nodes have been set in the cache"))),
        }
    }

    /// The node types; knowing none is a bug.
    pub fn get_nodes(&self) -> (r: Result<&SlurmNodes, Error>)
        ensures
            self.has_nodes() ==> (r matches Ok(n) && *n == self.nodes_spec()),
            !self.has_nodes() ==> (r matches Err(Error::Bug(m)) && m@ == "No nodes have been set in the cache"@),
    {
        match &self.nodes {
            Some(nodes) => Ok(nodes),
            None => Err(Error::Bug(String::from_str("No nodes have been set in the cache"))),
        }
    }
}

/// The view of a cached account: name, description, organization, limit
/// and clusters.
pub type AccountView = (Seq<char>, Seq<char>, Seq<char>, u64, Set<Seq<char>>);

pub open spec fn account_names(s: Seq<AccountView>) -> Seq<Seq<char>> {
    s.map_values(|a: AccountView| a.0)
}

/// The cached accounts with `a` stored under its name: in place of the first
/// account of that name, or appended.
pub open spec fn account_put(s: Seq<AccountView>, a: AccountView) -> Seq<AccountView> {
    let i = first_index(account_names(s), a.0);
    if i >= 0 {
        s.update(i, a)
    } else {
        s.push(a)
    }
}

impl Database {
    fn find_account(&self, name: &str) -> (r: Option<usize>)
        ensures
            r is None ==> first_index(account_names(self.accounts_spec()), name@) < 0,
            r matches Some(i) ==> i == first_index(account_names(self.accounts_spec()), name@) && i
                < self.accounts@.len(),
    {
        let ghost names = account_names(self.accounts_spec());
        proof {
            lemma_first_index(names, name@);
        }
        let mut i: usize = 0;
        while i < self.accounts.len()
            invariant
                i <= self.accounts@.len(),
                names == account_names(self.accounts_spec()),
                names.len() == self.accounts@.len(),
                forall|j: int| 0 <= j < i ==> names[j] != name@,
            decreases self.accounts@.len() - i,
        {
            assert(names[i as int] == self.accounts@[i as int]@.0);
            if crate::text::str_eq(self.accounts[i].name(), name) {
                proof {
                    lemma_first_index(names, name@);
                }
                return Some(i);
            }
            i = i + 1;
        }
        None
    }

    /// Cache `account` under its name, replacing the account of that name;
    /// where a cluster is set, an account not associated with it is not
    /// cached.
    pub fn add_account(&mut self, account: SlurmAccount)
        ensures
            ({
                let s = evicted(old(self).accounts_spec(), MAX_CACHED_ACCOUNTS as nat);
                final(self).accounts_spec() == match old(self).cluster_spec() {
                    Some(c) => if account@.4.contains(c) {
                        account_put(s, account@)
                    } else {
                        s
                    },
                    None => account_put(s, account@),
                }
            }),
            final(self).users_spec() == evicted(old(self).users_spec(), MAX_CACHED_USERS as nat),
            final(self).cluster_spec() == old(self).cluster_spec(),
            final(self).partition_spec() == old(self).partition_spec(),
            final(self).parent_account_spec() == old(self).parent_account_spec(),
            final(self).has_nodes() == old(self).has_nodes(),
            final(self).has_nodes() ==> final(self).nodes_spec() == old(self).nodes_spec(),
    {
        self.enforce_bounds();
        let associated = match &self.cluster {
            Some(c) => account.in_cluster(c.as_str()),
            None => true,
        };
        if !associated {
            return;
        }
        let ghost before = self.accounts_spec();
        let ghost a = account@;
        let found = self.find_account(account.name());
        match found {
            Some(i) => {
                self.accounts.set(i, account);
            },
            None => {
                self.accounts.push(account);
            },
        }
        assert(self.accounts_spec() =~= account_put(before, a));
    }

    /// The cached account called `name`, if any.
    pub fn get_account(&self, name: &str) -> (r: Option<&SlurmAccount>)
        ensures
            first_index(account_names(self.accounts_spec()), name@) < 0 ==> r is None,
            first_index(account_names(self.accounts_spec()), name@) >= 0 ==> (r matches Some(a) && a@
                == self.accounts_spec()[first_index(account_names(self.accounts_spec()), name@)]),
    {
        match self.find_account(name) {
            Some(i) => Some(&self.accounts[i]),
            None => None,
        }
    }

    /// Forget the cached account called `name`.
    pub fn remove_account(&mut self, name: &str)
        ensures
            final(self).accounts_spec() == ({
                let s = evicted(old(self).accounts_spec(), MAX_CACHED_ACCOUNTS as nat);
                let i = first_index(account_names(s), name@);
                if i >= 0 {
                    s.remove(i)
                } else {
                    s
                }
            }),
            final(self).users_spec() == evicted(old(self).users_spec(), MAX_CACHED_USERS as nat),
            final(self).cluster_spec() == old(self).cluster_spec(),
            final(self).partition_spec() == old(self).partition_spec(),
            final(self).parent_account_spec() == old(self).parent_account_spec(),
            final(self).has_nodes() == old(self).has_nodes(),
            final(self).has_nodes() ==> final(self).nodes_spec() == old(self).nodes_spec(),
    {
        self.enforce_bounds();
        let ghost before = self.accounts_spec();
        match self.find_account(name) {
            Some(i) => {
                let _ = self.accounts.remove(i);
                assert(self.accounts_spec() =~= before.remove(i as int));
            },
            None => {},
        }
    }
}

proof fn lemma_skip_keeps_distinct<A>(s: Seq<A>, k: int)
    requires
        0 <= k <= s.len(),
        s.no_duplicates(),
    ensures
        s.skip(k).no_duplicates(),
{
    assert forall|a: int, b: int| 0 <= a < s.skip(k).len() && 0 <= b < s.skip(k).len() && a != b implies s.skip(k)[a]
        != s.skip(k)[b] by {
        assert(s.skip(k)[a] == s[a + k] && s.skip(k)[b] == s[b + k]);
    }
}

proof fn lemma_names_put(names: Seq<Seq<char>>, i: int, name: Seq<char>)
    requires
        names.no_duplicates(),
        i == first_index(names, name),
    ensures
        i >= 0 ==> names.update(i, name) == names,
        i < 0 ==> names.push(name).no_duplicates(),
{
    lemma_first_index(names, name);
    if i >= 0 {
        assert(names.update(i, name) =~= names);
    } else {
        assert forall|a: int, b: int| 0 <= a < names.push(name).len() && 0 <= b < names.push(name).len() && a
            != b implies names.push(name)[a] != names.push(name)[b] by {
            if a < names.len() && b < names.len() {
            } else if a < names.len() {
                assert(names.contains(names[a]));
            } else {
                assert(names.contains(names[b]));
            }
        }
    }
}

proof fn lemma_remove_keeps_distinct<A>(s: Seq<A>, i: int)
    requires
        0 <= i < s.len(),
        s.no_duplicates(),
    ensures
        s.remove(i).no_duplicates(),
{
    let t = s.remove(i);
    assert forall|a: int, b: int| 0 <= a < t.len() && 0 <= b < t.len() && a != b implies t[a] != t[b] by {
        let a2 = if a < i { a } else { a + 1 };
        let b2 = if b < i { b } else { b + 1 };
        assert(t[a] == s[a2] && t[b] == s[b2]);
    }
}

/// A cache that holds each user name once keeps doing so through eviction,
/// storing a user, and removing one.
pub proof fn law_cached_user_names_stay_distinct(s: Seq<UserView>, u: UserView, name: Seq<char>, max: nat)
    requires
        user_names(s).no_duplicates(),
    ensures
        user_names(evicted(s, max)).no_duplicates(),
        user_names(user_put(evicted(s, max), u)).no_duplicates(),
        ({
            let e = evicted(s, max);
            let i = first_index(user_names(e), name);
            i >= 0 ==> user_names(e.remove(i)).no_duplicates()
        }),
{
    let e = evicted(s, max);
    if s.len() > max {
        lemma_skip_keeps_distinct(user_names(s), s.len() - max);
        assert(user_names(e) =~= user_names(s).skip(s.len() - max));
    }
    let ns = user_names(e);
    let i = first_index(ns, u.0);
    lemma_names_put(ns, i, u.0);
    lemma_first_index(ns, u.0);
    if i >= 0 {
        assert(user_names(e.update(i, u)) =~= ns.update(i, u.0));
    } else {
        assert(user_names(e.push(u)) =~= ns.push(u.0));
    }
    let j = first_index(ns, name);
    lemma_first_index(ns, name);
    if j >= 0 {
        lemma_remove_keeps_distinct(ns, j);
        assert(user_names(e.remove(j)) =~= ns.remove(j));
    }
}

/// A cache that holds each account name once keeps doing so through
/// eviction, storing an account, and removing one.
pub proof fn law_cached_account_names_stay_distinct(s: Seq<AccountView>, a: AccountView, name: Seq<char>, max: nat)
    requires
        account_names(s).no_duplicates(),
    ensures
        account_names(evicted(s, max)).no_duplicates(),
        account_names(account_put(evicted(s, max), a)).no_duplicates(),
        ({
            let e = evicted(s, max);
            let i = first_index(account_names(e), name);
            i >= 0 ==> account_names(e.remove(i)).no_duplicates()
        }),
{
    let e = evicted(s, max);
    if s.len() > max {
        lemma_skip_keeps_distinct(account_names(s), s.len() - max);
        assert(account_names(e) =~= account_names(s).skip(s.len() - max));
    }
    let ns = account_names(e);
    let i = first_index(ns, a.0);
    lemma_names_put(ns, i, a.0);
    lemma_first_index(ns, a.0);
    if i >= 0 {
        assert(account_names(e.update(i, a)) =~= ns.update(i, a.0));
    } else {
        assert(account_names(e.push(a)) =~= ns.push(a.0));
    }
    let j = first_index(ns, name);
    lemma_first_index(ns, name);
    if j >= 0 {
        lemma_remove_keeps_distinct(ns, j);
        assert(account_names(e.remove(j)) =~= ns.remove(j));
    }
}

/// Keep, once `entries` has grown past `max`, only the entries that someone
/// still holds (the second of each pair); at or below `max`, keep them all.
pub fn retain_held<K>(entries: &mut Vec<(K, bool)>, max: usize)
    ensures
        old(entries)@.len() <= max ==> final(entries)@ == old(entries)@,
        old(entries)@.len() > max ==> final(entries)@ == keep(old(entries)@, |held: bool| held),
{
    if entries.len() <= max {
        return;
    }
    let ghost all = entries@;
    let ghost p = |held: bool| held;
    let n = entries.len();
    let mut rest: Vec<(K, bool)> = Vec::new();
    std::mem::swap(&mut rest, entries);
    let mut done: usize = 0;
    assert(all.take(0) =~= Seq::<(K, bool)>::empty());
    assert(all.skip(0) =~= all);
    while rest.len() > 0
        invariant
            done <= all.len(),
            all.len() == n,
            rest@ == all.skip(done as int),
            entries@ == keep(all.take(done as int), p),
            p == (|held: bool| held),
        decreases rest@.len(),
    {
        let e = rest.remove(0);
        assert(all.take(done + 1).drop_last() =~= all.take(done as int));
        assert(all.take(done + 1).last() == all[done as int]);
        assert(e == all[done as int]);
        if e.1 {
            entries.push(e);
        }
        done = done + 1;
        assert(rest@ =~= all.skip(done as int));
    }
    assert(all.take(done as int) =~= all);
}

} // verus!
