use vstd::prelude::*;
use vstd::string::*;

use crate::error::Error;
use crate::text::{
    chars_of, contains_whitespace, trim, trim_chars, first_index, has_ws, join, keep_non_empty, lemma_first_index,
    lemma_non_empty_all, lemma_non_empty_shape, lemma_split_append_free, lemma_split_append_sep,
    lemma_split_pieces_free_of_sep, non_empty, push_chars, push_str, split,
    split_chars, string_of, views,
};

verus! {

broadcast use vstd::string::group_string_axioms;

/// The views of a sequence of strings.
pub open spec fn string_views(v: Seq<String>) -> Seq<Seq<char>> {
    v.map_values(|a: String| a@)
}

/// What a destination path must be: at least two hops, each a non-empty
/// name that holds no `.` and no whitespace.
pub open spec fn valid_agents(a: Seq<Seq<char>>) -> bool {
    &&& a.len() >= 2
    &&& forall|i: int|
        0 <= i < a.len() ==> {
            &&& (#[trigger] a[i]).len() > 0
            &&& !a[i].contains('.')
            &&& !has_ws(a[i])
        }
}

/// The agent names that `Destination::parse` reads out of `s`: the non-empty
/// pieces between dots.
pub open spec fn agents_of(s: Seq<char>) -> Seq<Seq<char>> {
    non_empty(split(s, '.'))
}

/// Whether `parse` accepts `s`.
pub open spec fn parses_as_destination(s: Seq<char>) -> bool {
    &&& agents_of(s).len() >= 2
    &&& forall|i: int| 0 <= i < agents_of(s).len() ==> !has_ws(#[trigger] agents_of(s)[i])
}

/// A path through the agent hierarchy, written `a.b.c`.
#[derive(Debug)]
pub struct Destination {
    agents: Vec<String>,
}

/// Where an agent stands on a path, relative to the agent that handed it a
/// message.
#[derive(Clone, Copy, Debug, PartialEq, Eq, Structural)]
pub enum Position {
    Upstream,
    Downstream,
    Destination,
    Error,
}

/// The position of `agent` on `path` when the message came from `previous`:
/// the sender must be the agent's immediate neighbour.
pub open spec fn position_of(path: Seq<Seq<char>>, agent: Seq<char>, previous: Seq<char>) -> Position {
    let a = first_index(path, agent);
    let p = first_index(path, previous);
    if a < 0 || p < 0 {
        Position::Error
    } else if p + 1 == a {
        if a + 1 == path.len() {
            Position::Destination
        } else {
            Position::Downstream
        }
    } else if a + 1 == p {
        Position::Upstream
    } else {
        Position::Error
    }
}

/// The hop after `agent` on `path`, if `agent` is on it and not last.
pub open spec fn next_of(path: Seq<Seq<char>>, agent: Seq<char>) -> Option<Seq<char>> {
    let i = first_index(path, agent);
    if i < 0 || i + 1 >= path.len() {
        None
    } else {
        Some(path[i + 1])
    }
}

/// The hop before `agent` on `path`, if `agent` is on it and not first.
pub open spec fn previous_of(path: Seq<Seq<char>>, agent: Seq<char>) -> Option<Seq<char>> {
    let i = first_index(path, agent);
    if i <= 0 {
        None
    } else {
        Some(path[i - 1])
    }
}

impl View for Destination {
    type V = Seq<Seq<char>>;

    closed spec fn view(&self) -> Seq<Seq<char>> {
        string_views(self.agents@)
    }
}

impl Clone for Destination {
    fn clone(&self) -> (r: Self)
        ensures
            r@ == self@,
    {
        proof {
            use_type_invariant(self);
        }
        let mut agents: Vec<String> = Vec::new();
        let mut i: usize = 0;
        while i < self.agents.len()
            invariant
                i <= self.agents.len(),
                string_views(agents@) == self@.take(i as int),
            decreases self.agents.len() - i,
        {
            let ghost prev = agents@;
            let c = self.agents[i].clone();
            agents.push(c);
            assert(string_views(agents@) =~= string_views(prev).push(self@[i as int]));
            i = i + 1;
        }
        assert(self@.take(self.agents.len() as int) =~= self@);
        Destination { agents }
    }
}

impl Destination {
    #[verifier::type_invariant]
    closed spec fn inv(self) -> bool {
        valid_agents(self@)
    }

    /// Read a destination such as `portal.provider.cluster`. Empty pieces
    /// between dots are skipped; a name holding whitespace, or fewer than two
    /// names, is refused.
    pub fn parse(destination: &str) -> (r: Result<Destination, Error>)
        ensures
            r is Ok <==> parses_as_destination(destination@),
            r matches Ok(d) ==> d@ == agents_of(destination@) && valid_agents(d@),
            r matches Err(e) ==> e is Parse,
    {
        let chars = chars_of(destination);
        let pieces = keep_non_empty(split_chars(&chars, '.'));
        let ghost a = views(pieces@);
        assert(a == agents_of(destination@));

        let mut i: usize = 0;
        while i < pieces.len()
            invariant
                i <= pieces.len(),
                a == views(pieces@),
                a == agents_of(destination@),
                forall|j: int| 0 <= j < i ==> !has_ws(#[trigger] a[j]),
            decreases pieces.len() - i,
        {
            if contains_whitespace(&pieces[i]) {
                let mut msg: Vec<char> = Vec::new();
                push_str(&mut msg, "Invalid destination '");
                push_str(&mut msg, destination);
                push_str(&mut msg, "' - agent name '");
                push_chars(&mut msg, &pieces[i]);
                push_str(&mut msg, "' contains whitespace");
                assert(has_ws(a[i as int]));
                assert(agents_of(destination@)[i as int] == a[i as int]);
                return Err(Error::Parse(string_of(&msg)));
            }
            i = i + 1;
        }

        if pieces.len() == 0 {
            let mut msg: Vec<char> = Vec::new();
            push_str(&mut msg, "Invalid empty destination '");
            push_str(&mut msg, destination);
            push_str(&mut msg, "'");
            return Err(Error::Parse(string_of(&msg)));
        }
        if pieces.len() == 1 {
            let mut msg: Vec<char> = Vec::new();
            push_str(&mut msg, "Invalid single agent destination '");
            push_str(&mut msg, destination);
            push_str(&mut msg, "'");
            return Err(Error::Parse(string_of(&msg)));
        }

        let mut agents: Vec<String> = Vec::new();
        let mut k: usize = 0;
        while k < pieces.len()
            invariant
                k <= pieces.len(),
                a == views(pieces@),
                string_views(agents@) == a.take(k as int),
            decreases pieces.len() - k,
        {
            let ghost prev = agents@;
            let piece = string_of(&pieces[k]);
            agents.push(piece);
            assert(string_views(agents@) =~= string_views(prev).push(a[k as int]));
            k = k + 1;
            assert(string_views(agents@) =~= a.take(k as int));
        }
        assert(a.take(pieces.len() as int) =~= a);
        proof {
            lemma_split_pieces_free_of_sep(destination@, '.');
            lemma_non_empty_shape(split(destination@, '.'));
            assert forall|j: int| 0 <= j < a.len() implies !(#[trigger] a[j]).contains('.') by {
                let m = choose|m: int|
                    0 <= m < split(destination@, '.').len() && split(destination@, '.')[m] == a[j];
                assert(!split(destination@, '.')[m].contains('.'));
            }
        }
        Ok(Destination { agents })
    }

    /// The names on the path, first hop first.
    pub fn agents(&self) -> (r: Vec<String>)
        ensures
            string_views(r@) == self@,
    {
        let mut r: Vec<String> = Vec::new();
        let mut i: usize = 0;
        while i < self.agents.len()
            invariant
                i <= self.agents.len(),
                string_views(r@) == self@.take(i as int),
            decreases self.agents.len() - i,
        {
            let ghost prev = r@;
            let c = self.agents[i].clone();
            r.push(c);
            assert(string_views(r@) =~= string_views(prev).push(self@[i as int]));
            i = i + 1;
            assert(string_views(r@) =~= self@.take(i as int));
        }
        assert(self@.take(self.agents.len() as int) =~= self@);
        r
    }

    /// The index of the first agent named `name`, or `None`.
    fn index_of(&self, name: &str) -> (r: Option<usize>)
        ensures
            r is None <==> first_index(self@, name@) < 0,
            r matches Some(i) ==> i == first_index(self@, name@) && i < self@.len() && i
                < self.agents.len(),
    {
        let target = String::from_str(name);
        let mut i: usize = 0;
        proof {
            lemma_first_index(self@, name@);
        }
        while i < self.agents.len()
            invariant
                i <= self.agents.len(),
                target@ == name@,
                forall|j: int| 0 <= j < i ==> self@[j] != name@,
                -1 <= first_index(self@, name@) < self@.len(),
                first_index(self@, name@) >= 0 ==> self@[first_index(self@, name@)] == name@,
                forall|j: int|
                    0 <= j < self@.len() && (first_index(self@, name@) < 0 || j < first_index(
                        self@,
                        name@,
                    )) ==> self@[j] != name@,
            decreases self.agents.len() - i,
        {
            if self.agents[i] == target {
                assert(self@[i as int] == name@);
                return Some(i);
            }
            i = i + 1;
        }
        None
    }

    fn position_internal(&self, agent: &str, previous: &str) -> (r: Position)
        ensures
            r == position_of(self@, agent@, previous@),
    {
        let agent_index = match self.index_of(agent) {
            Some(i) => i,
            None => return Position::Error,
        };
        let previous_index = match self.index_of(previous) {
            Some(i) => i,
            None => return Position::Error,
        };
        let from_upstream = previous_index < agent_index && previous_index + 1 == agent_index;
        let from_downstream = agent_index < previous_index && agent_index + 1 == previous_index;
        if from_upstream {
            if agent_index + 1 == self.agents.len() {
                Position::Destination
            } else {
                Position::Downstream
            }
        } else if from_downstream {
            Position::Upstream
        } else {
            Position::Error
        }
    }

    /// The first hop.
    pub fn first(&self) -> (r: String)
        ensures
            r@ == self@[0],
    {
        proof {
            use_type_invariant(self);
        }
        self.agents[0].clone()
    }

    /// The second hop.
    pub fn second(&self) -> (r: String)
        ensures
            r@ == self@[1],
    {
        proof {
            use_type_invariant(self);
        }
        self.agents[1].clone()
    }

    /// The last hop.
    pub fn last(&self) -> (r: String)
        ensures
            r@ == self@.last(),
    {
        proof {
            use_type_invariant(self);
        }
        self.agents[self.agents.len() - 1].clone()
    }

    /// The same path walked the other way.
    pub fn reverse(&self) -> (r: Destination)
        ensures
            r@ == self@.reverse(),
            valid_agents(r@),
    {
        proof {
            use_type_invariant(self);
        }
        let n = self.agents.len();
        let mut agents: Vec<String> = Vec::new();
        let mut i: usize = 0;
        while i < n
            invariant
                i <= n,
                n == self@.len(),
                string_views(agents@) == self@.reverse().take(i as int),
            decreases n - i,
        {
            let ghost prev = agents@;
            let c = self.agents[n - 1 - i].clone();
            agents.push(c);
            assert(string_views(agents@) =~= string_views(prev).push(self@[n - 1 - i]));
            i = i + 1;
            assert(string_views(agents@) =~= self@.reverse().take(i as int));
        }
        assert(self@.reverse().take(n as int) =~= self@.reverse());
        assert(valid_agents(self@.reverse())) by {
            assert forall|k: int| 0 <= k < n implies #[trigger] self@.reverse()[k] == self@[n - 1 - k] by {}
        }
        Destination { agents }
    }

    /// Where `agent` stands on this path given that the message came from
    /// `previous`: `Downstream` or `Destination` when `previous` is the hop just
    /// before it, `Upstream` when `previous` is the hop just after it, and
    /// `Error` otherwise.
    pub fn position(&self, agent: &str, previous: &str) -> (r: Position)
        ensures
            r == position_of(self@, agent@, previous@),
    {
        self.position_internal(agent, previous)
    }

    /// The hop after `agent`, or `None` if `agent` is not on the path or is
    /// the last hop.
    pub fn next(&self, agent: &str) -> (r: Option<String>)
        ensures
            r is Some <==> next_of(self@, agent@) is Some,
            r matches Some(s) ==> s@ == next_of(self@, agent@)->0,
    {
        let index = self.index_of(agent)?;
        if index + 1 < self.agents.len() {
            Some(self.agents[index + 1].clone())
        } else {
            None
        }
    }

    /// The hop before `agent`, or `None` if `agent` is not on the path or is
    /// the first hop.
    pub fn previous(&self, agent: &str) -> (r: Option<String>)
        ensures
            r is Some <==> previous_of(self@, agent@) is Some,
            r matches Some(s) ==> s@ == previous_of(self@, agent@)->0,
    {
        let index = self.index_of(agent)?;
        proof {
            lemma_first_index(self@, agent@);
        }
        if index == 0 {
            None
        } else {
            Some(self.agents[index - 1].clone())
        }
    }

    /// The path written with dots between the hops.
    pub fn to_string(&self) -> (r: String)
        ensures
            r@ == join(self@, seq!['.']),
    {
        let mut out: Vec<char> = Vec::new();
        let mut i: usize = 0;
        while i < self.agents.len()
            invariant
                i <= self.agents.len(),
                out@ == join(self@.take(i as int), seq!['.']),
            decreases self.agents.len() - i,
        {
            let ghost before = out@;
            if i > 0 {
                out.push('.');
            }
            let piece = chars_of(self.agents[i].as_str());
            push_chars(&mut out, &piece);
            i = i + 1;
            assert(self@.take(i as int).drop_last() =~= self@.take(i - 1));
            assert(out@ =~= join(self@.take(i as int), seq!['.']));
        }
        assert(self@.take(self.agents.len() as int) =~= self@);
        string_of(&out)
    }
}

} // verus!

verus! {

impl Destination {
    /// Whether the two destinations name the same path.
    pub fn same_path(&self, other: &Destination) -> (r: bool)
        ensures
            r == (self@ == other@),
    {
        if self.agents.len() != other.agents.len() {
            assert(self@.len() != other@.len());
            return false;
        }
        let mut i: usize = 0;
        while i < self.agents.len()
            invariant
                i <= self.agents.len(),
                self.agents.len() == other.agents.len(),
                forall|j: int| 0 <= j < i ==> self@[j] == other@[j],
            decreases self.agents.len() - i,
        {
            if self.agents[i] != other.agents[i] {
                assert(self@[i as int] != other@[i as int]);
                return false;
            }
            i = i + 1;
        }
        assert(self@ =~= other@);
        true
    }
}

impl PartialEq for Destination {
    fn eq(&self, other: &Destination) -> (r: bool) {
        self.same_path(other)
    }
}

impl vstd::std_specs::cmp::PartialEqSpecImpl for Destination {
    open spec fn obeys_eq_spec() -> bool {
        true
    }

    open spec fn eq_spec(&self, other: &Destination) -> bool {
        self@ == other@
    }
}

/// The views of a sequence of destinations.
pub open spec fn paths(v: Seq<Destination>) -> Seq<Seq<Seq<char>>> {
    v.map_values(|d: Destination| d@)
}

/// `s` with every repeat of an earlier element dropped.
pub open spec fn dedup<A>(s: Seq<A>) -> Seq<A>
    decreases s.len(),
{
    if s.len() == 0 {
        Seq::empty()
    } else if dedup(s.drop_last()).contains(s.last()) {
        dedup(s.drop_last())
    } else {
        dedup(s.drop_last()).push(s.last())
    }
}

/// `a` followed by each element of `b` that `a` does not hold.
pub open spec fn append_missing<A>(a: Seq<A>, b: Seq<A>) -> Seq<A>
    decreases b.len(),
{
    if b.len() == 0 {
        a
    } else if a.contains(b.last()) {
        append_missing(a, b.drop_last())
    } else {
        append_missing(a, b.drop_last()).push(b.last())
    }
}

/// `a` with, for each element of `b` in turn, the first equal element removed.
pub open spec fn remove_each<A>(a: Seq<A>, b: Seq<A>) -> Seq<A>
    decreases b.len(),
{
    if b.len() == 0 {
        a
    } else {
        let r = remove_each(a, b.drop_last());
        let i = first_index(r, b.last());
        if i < 0 {
            r
        } else {
            r.remove(i)
        }
    }
}

/// The text between the brackets, if `parse` finds a list written `[...]`.
pub open spec fn unbracket(t: Seq<char>) -> Seq<char> {
    let a = if t.len() > 0 && t[0] == '[' {
        t.drop_first()
    } else {
        t
    };
    if a.len() > 0 && a.last() == ']' {
        a.drop_last()
    } else {
        t
    }
}

/// The entries of a written list of destinations: the trimmed, non-empty
/// pieces between commas.
pub open spec fn list_entries(s: Seq<char>) -> Seq<Seq<char>> {
    non_empty(split(trim(unbracket(trim(s))), ',').map_values(|p: Seq<char>| trim(p)))
}

/// A set of destinations, kept in the order they were added.
#[derive(Clone, Debug)]
pub struct Destinations {
    destinations: Vec<Destination>,
}

impl View for Destinations {
    type V = Seq<Seq<Seq<char>>>;

    closed spec fn view(&self) -> Seq<Seq<Seq<char>>> {
        paths(self.destinations@)
    }
}

impl Destinations {
    /// The destinations in `destinations`, each kept once, first occurrence
    /// first.
    pub fn new(destinations: &[Destination]) -> (r: Destinations)
        ensures
            r@ == dedup(paths(destinations@)),
    {
        let mut unique: Vec<Destination> = Vec::new();
        let mut i: usize = 0;
        while i < destinations.len()
            invariant
                i <= destinations.len(),
                paths(unique@) == dedup(paths(destinations@.take(i as int))),
            decreases destinations.len() - i,
        {
            let d = &destinations[i];
            let ghost s = paths(destinations@.take(i + 1));
            assert(s.drop_last() =~= paths(destinations@.take(i as int)));
            assert(s.last() == d@);
            let mut found = false;
            let mut j: usize = 0;
            while j < unique.len()
                invariant
                    j <= unique.len(),
                    found ==> paths(unique@).contains(d@),
                    !found ==> forall|k: int| 0 <= k < j ==> paths(unique@)[k] != d@,
                decreases unique.len() - j,
            {
                if unique[j].same_path(d) {
                    found = true;
                    assert(paths(unique@)[j as int] == d@);
                }
                j = j + 1;
            }
            if !found {
                let ghost prev = unique@;
                let c = d.clone();
                unique.push(c);
                assert(paths(unique@) =~= paths(prev).push(d@));
            }
            i = i + 1;
        }
        assert(destinations@.take(destinations.len() as int) =~= destinations@);
        Destinations { destinations: unique }
    }

    /// Read a comma-separated list of destinations, optionally written in
    /// square brackets, such as `[a.b, c.d]`. Each entry is read as
    /// `Destination::parse` reads it; the first entry it refuses is the error.
    pub fn parse(destinations: &str) -> (r: Result<Destinations, Error>)
        ensures
            r is Ok <==> forall|i: int|
                0 <= i < list_entries(destinations@).len() ==> parses_as_destination(
                    #[trigger] list_entries(destinations@)[i],
                ),
            r matches Ok(d) ==> d@ == dedup(
                list_entries(destinations@).map_values(|e: Seq<char>| agents_of(e)),
            ),
            r matches Err(e) ==> e is Parse,
    {
        let chars = chars_of(destinations);
        let t = trim_chars(&chars);
        let n = t.len();
        let mut lo: usize = 0;
        if n > 0 && t[0] == '[' {
            lo = 1;
        }
        let mut inner: Vec<char> = Vec::new();
        if n > lo && t[n - 1] == ']' {
            let mut k: usize = lo;
            while k < n - 1
                invariant
                    lo <= k <= n - 1,
                    n == t.len(),
                    inner@ == t@.subrange(lo as int, k as int),
                decreases n - 1 - k,
            {
                inner.push(t[k]);
                k = k + 1;
                assert(inner@ =~= t@.subrange(lo as int, k as int));
            }
            proof {
                let a = if t@.len() > 0 && t@[0] == '[' {
                    t@.drop_first()
                } else {
                    t@
                };
                assert(a =~= t@.subrange(lo as int, n as int));
                assert(inner@ =~= a.drop_last());
            }
        } else {
            inner = t.clone();
            proof {
                let a = if t@.len() > 0 && t@[0] == '[' {
                    t@.drop_first()
                } else {
                    t@
                };
                assert(a =~= t@.subrange(lo as int, n as int));
            }
        }
        assert(inner@ == unbracket(trim(destinations@)));
        let inner = trim_chars(&inner);
        let pieces = split_chars(&inner, ',');
        let mut trimmed: Vec<Vec<char>> = Vec::new();
        let mut i: usize = 0;
        let ghost raw = views(pieces@);
        while i < pieces.len()
            invariant
                i <= pieces.len(),
                raw == views(pieces@),
                views(trimmed@) == raw.take(i as int).map_values(|p: Seq<char>| trim(p)),
            decreases pieces.len() - i,
        {
            let ghost prev = trimmed@;
            let p = trim_chars(&pieces[i]);
            trimmed.push(p);
            assert(views(trimmed@) =~= views(prev).push(trim(raw[i as int])));
            i = i + 1;
            assert(raw.take(i as int).map_values(|p: Seq<char>| trim(p)) =~= raw.take(
                i - 1,
            ).map_values(|p: Seq<char>| trim(p)).push(trim(raw[i - 1])));
        }
        assert(raw.take(pieces.len() as int) =~= raw);
        let entries = keep_non_empty(trimmed);
        let ghost es = views(entries@);
        assert(es == list_entries(destinations@));

        let mut parsed: Vec<Destination> = Vec::new();
        let mut j: usize = 0;
        while j < entries.len()
            invariant
                j <= entries.len(),
                es == views(entries@),
                es == list_entries(destinations@),
                paths(parsed@) == es.take(j as int).map_values(|e: Seq<char>| agents_of(e)),
                forall|k: int| 0 <= k < j ==> parses_as_destination(#[trigger] es[k]),
            decreases entries.len() - j,
        {
            let s = string_of(&entries[j]);
            match Destination::parse(s.as_str()) {
                Ok(d) => {
                    let ghost prev = parsed@;
                    parsed.push(d);
                    assert(paths(parsed@) =~= paths(prev).push(agents_of(es[j as int])));
                },
                Err(e) => {
                    assert(!parses_as_destination(list_entries(destinations@)[j as int]));
                    return Err(e);
                },
            }
            j = j + 1;
            assert(es.take(j as int).map_values(|e: Seq<char>| agents_of(e)) =~= es.take(
                j - 1,
            ).map_values(|e: Seq<char>| agents_of(e)).push(agents_of(es[j - 1])));
        }
        assert(es.take(entries.len() as int) =~= es);
        Ok(Destinations::new(parsed.as_slice()))
    }

    /// The number of destinations held.
    pub fn len(&self) -> (r: usize)
        ensures
            r == self@.len(),
    {
        self.destinations.len()
    }

    /// Whether no destination is held.
    pub fn is_empty(&self) -> (r: bool)
        ensures
            r == (self@.len() == 0),
    {
        self.destinations.len() == 0
    }

    fn holds(&self, d: &Destination) -> (r: bool)
        ensures
            r == self@.contains(d@),
    {
        let mut j: usize = 0;
        while j < self.destinations.len()
            invariant
                j <= self.destinations.len(),
                forall|k: int| 0 <= k < j ==> self@[k] != d@,
            decreases self.destinations.len() - j,
        {
            if self.destinations[j].same_path(d) {
                assert(self@[j as int] == d@);
                return true;
            }
            j = j + 1;
        }
        false
    }

    /// These destinations followed by each of `destinations` not already
    /// among them.
    pub fn add(&self, destinations: Destinations) -> (r: Destinations)
        ensures
            r@ == append_missing(self@, destinations@),
    {
        let mut out: Vec<Destination> = Vec::new();
        let mut i: usize = 0;
        while i < self.destinations.len()
            invariant
                i <= self.destinations.len(),
                paths(out@) == self@.take(i as int),
            decreases self.destinations.len() - i,
        {
            let ghost prev = out@;
            let c = self.destinations[i].clone();
            out.push(c);
            assert(paths(out@) =~= paths(prev).push(self@[i as int]));
            i = i + 1;
        }
        assert(self@.take(self.destinations.len() as int) =~= self@);
        let mut j: usize = 0;
        let other = destinations.destinations;
        while j < other.len()
            invariant
                j <= other.len(),
                paths(out@) == append_missing(self@, paths(other@).take(j as int)),
            decreases other.len() - j,
        {
            let ghost b = paths(other@).take(j + 1);
            assert(b.drop_last() =~= paths(other@).take(j as int));
            assert(b.last() == other@[j as int]@);
            if !self.holds(&other[j]) {
                let ghost prev = out@;
                let c = other[j].clone();
                out.push(c);
                assert(paths(out@) =~= paths(prev).push(other@[j as int]@));
            }
            j = j + 1;
        }
        assert(paths(other@).take(other.len() as int) =~= paths(other@));
        Destinations { destinations: out }
    }

    /// These destinations with, for each of `destinations` in turn, its
    /// first occurrence removed.
    pub fn remove(&self, destinations: Destinations) -> (r: Destinations)
        ensures
            r@ == remove_each(self@, destinations@),
    {
        let mut out: Vec<Destination> = self.destinations.clone();
        assert(paths(out@) =~= self@) by {
            assert forall|k: int| 0 <= k < out@.len() implies #[trigger] paths(out@)[k] == self@[k] by {
                assert(vstd::pervasive::cloned(self.destinations@[k], out@[k]));
            }
        }
        let mut j: usize = 0;
        let other = destinations.destinations;
        while j < other.len()
            invariant
                j <= other.len(),
                paths(out@) == remove_each(self@, paths(other@).take(j as int)),
            decreases other.len() - j,
        {
            let ghost b = paths(other@).take(j + 1);
            assert(b.drop_last() =~= paths(other@).take(j as int));
            assert(b.last() == other@[j as int]@);
            let ghost cur = paths(out@);
            let ghost target = other@[j as int]@;
            proof {
                lemma_first_index(cur, target);
            }
            let mut k: usize = 0;
            let mut pos: Option<usize> = None;
            while k < out.len()
                invariant_except_break
                    pos is None,
                invariant
                    k <= out.len(),
                    j < other.len(),
                    target == other@[j as int]@,
                    cur == paths(out@),
                    forall|m: int| 0 <= m < k ==> cur[m] != target,
                    -1 <= first_index(cur, target) < cur.len(),
                    first_index(cur, target) >= 0 ==> cur[first_index(cur, target)] == target,
                    forall|m: int|
                        0 <= m < cur.len() && (first_index(cur, target) < 0 || m < first_index(
                            cur,
                            target,
                        )) ==> cur[m] != target,
                ensures
                    pos is None ==> first_index(cur, target) < 0,
                    pos matches Some(p) ==> p == first_index(cur, target) && p < out.len(),
                decreases out.len() - k,
            {
                if out[k].same_path(&other[j]) {
                    assert(cur[k as int] == target);
                    pos = Some(k);
                    break;
                }
                k = k + 1;
            }
            match pos {
                Some(p) => {
                    let ghost prev = out@;
                    out.remove(p);
                    assert(paths(out@) =~= paths(prev).remove(p as int));
                },
                None => {},
            }
            j = j + 1;
        }
        assert(paths(other@).take(other.len() as int) =~= paths(other@));
        Destinations { destinations: out }
    }

    /// The destination at `index`, or `None` if `index` is out of range.
    pub fn get(&self, index: usize) -> (r: Option<&Destination>)
        ensures
            r is Some <==> index < self@.len(),
            r matches Some(d) ==> d@ == self@[index as int],
    {
        if index < self.destinations.len() {
            Some(&self.destinations[index])
        } else {
            None
        }
    }

    /// The destinations held, in order.
    pub fn to_vec(&self) -> (r: Vec<Destination>)
        ensures
            paths(r@) == self@,
    {
        let mut out: Vec<Destination> = Vec::new();
        let mut i: usize = 0;
        while i < self.destinations.len()
            invariant
                i <= self.destinations.len(),
                paths(out@) == self@.take(i as int),
            decreases self.destinations.len() - i,
        {
            let ghost prev = out@;
            let c = self.destinations[i].clone();
            out.push(c);
            assert(paths(out@) =~= paths(prev).push(self@[i as int]));
            i = i + 1;
        }
        assert(self@.take(self.destinations.len() as int) =~= self@);
        out
    }
}

} // verus!

verus! {

impl Destinations {
    /// The list as text: `[]` when empty, the single destination on its own,
    /// and otherwise the destinations separated by `, ` inside brackets.
    pub fn to_string(&self) -> (r: String)
        ensures
            r@ == (if self@.len() == 0 {
                seq!['[', ']']
            } else if self@.len() == 1 {
                join(self@[0], seq!['.'])
            } else {
                seq!['['] + join(self@.map_values(|p: Seq<Seq<char>>| join(p, seq!['.'])), seq![',', ' '])
                    + seq![']']
            }),
    {
        let n = self.destinations.len();
        if n == 0 {
            let mut out: Vec<char> = Vec::new();
            out.push('[');
            out.push(']');
            assert(out@ =~= seq!['[', ']']);
            return string_of(&out);
        }
        if n == 1 {
            return self.destinations[0].to_string();
        }
        let ghost texts = self@.map_values(|p: Seq<Seq<char>>| join(p, seq!['.']));
        let mut body: Vec<char> = Vec::new();
        let mut i: usize = 0;
        while i < n
            invariant
                i <= n,
                n == self@.len(),
                texts == self@.map_values(|p: Seq<Seq<char>>| join(p, seq!['.'])),
                body@ == join(texts.take(i as int), seq![',', ' ']),
            decreases n - i,
        {
            if i > 0 {
                body.push(',');
                body.push(' ');
            }
            let piece = self.destinations[i].to_string();
            let pc = chars_of(piece.as_str());
            push_chars(&mut body, &pc);
            i = i + 1;
            assert(texts.take(i as int).drop_last() =~= texts.take(i - 1));
            assert(body@ =~= join(texts.take(i as int), seq![',', ' ']));
        }
        assert(texts.take(n as int) =~= texts);
        let mut out: Vec<char> = Vec::new();
        out.push('[');
        push_chars(&mut out, &body);
        out.push(']');
        assert(out@ =~= seq!['['] + join(texts, seq![',', ' ']) + seq![']']);
        string_of(&out)
    }
}

/// Splitting the dotted form of names that hold no dot gives the names back.
pub proof fn lemma_split_join(a: Seq<Seq<char>>)
    requires
        a.len() >= 1,
        forall|i: int| 0 <= i < a.len() ==> !(#[trigger] a[i]).contains('.'),
    ensures
        split(join(a, seq!['.']), '.') == a,
    decreases a.len(),
{
    if a.len() == 1 {
        lemma_split_append_free(Seq::<char>::empty(), a[0], '.');
        assert(Seq::<char>::empty() + a[0] =~= a[0]);
        assert(split(Seq::<char>::empty(), '.').update(0, Seq::<char>::empty() + a[0]) =~= a);
    } else {
        let init = a.drop_last();
        assert forall|i: int| 0 <= i < init.len() implies !(#[trigger] init[i]).contains('.') by {
            assert(init[i] == a[i]);
        }
        lemma_split_join(init);
        let x = join(init, seq!['.']);
        assert(join(a, seq!['.']) =~= x.push('.') + a.last());
        lemma_split_append_sep(x, '.');
        assert(!a.last().contains('.')) by {
            assert(a[a.len() - 1] == a.last());
        }
        lemma_split_append_free(x.push('.'), a.last(), '.');
        assert(Seq::<char>::empty() + a.last() =~= a.last());
        assert(init.push(Seq::<char>::empty()).update(init.len() as int, a.last()) =~= a);
    }
}

/// Writing a destination out and reading it back gives the same path: the
/// text form is a faithful encoding.
pub proof fn law_destination_text_roundtrip(a: Seq<Seq<char>>)
    requires
        valid_agents(a),
    ensures
        parses_as_destination(join(a, seq!['.'])),
        agents_of(join(a, seq!['.'])) == a,
{
    lemma_split_join(a);
    lemma_non_empty_all(a);
}

/// Reversing a path twice gives it back.
pub proof fn law_reverse_twice(a: Seq<Seq<char>>)
    ensures
        a.reverse().reverse() == a,
{
    assert(a.reverse().reverse() =~= a);
}

/// On a path that names no agent twice, the first index of a name is its
/// only index.
pub proof fn lemma_first_index_unique<A>(a: Seq<A>, i: int)
    requires
        a.no_duplicates(),
        0 <= i < a.len(),
    ensures
        first_index(a, a[i]) == i,
{
    lemma_first_index(a, a[i]);
    assert(a.contains(a[i]));
}

/// On a path that names no agent twice, stepping forward then back returns
/// to where one started.
pub proof fn law_next_then_previous(a: Seq<Seq<char>>, x: Seq<char>)
    requires
        a.no_duplicates(),
        next_of(a, x) is Some,
    ensures
        previous_of(a, next_of(a, x)->0) == Some(x),
{
    lemma_first_index(a, x);
    let i = first_index(a, x);
    lemma_first_index_unique(a, i + 1);
}

/// On a path that names no agent twice, a message handed from each hop to the
/// next is accepted as travelling down the path (and as arrived at the last
/// hop), and a reply handed back is accepted as travelling up it.
pub proof fn law_hop_by_hop(a: Seq<Seq<char>>, i: int)
    requires
        a.no_duplicates(),
        0 < i < a.len(),
    ensures
        position_of(a, a[i], a[i - 1]) == (if i + 1 == a.len() {
            Position::Destination
        } else {
            Position::Downstream
        }),
        position_of(a, a[i - 1], a[i]) == Position::Upstream,
{
    lemma_first_index_unique(a, i);
    lemma_first_index_unique(a, i - 1);
}

/// Whatever `position` answers other than `Error`, the sender is the
/// receiver's immediate neighbour on the path.
pub proof fn law_accepted_sender_is_adjacent(a: Seq<Seq<char>>, agent: Seq<char>, previous: Seq<char>)
    requires
        position_of(a, agent, previous) != Position::Error,
    ensures
        a.contains(agent),
        a.contains(previous),
        first_index(a, previous) + 1 == first_index(a, agent) || first_index(a, agent) + 1
            == first_index(a, previous),
{
    lemma_first_index(a, agent);
    lemma_first_index(a, previous);
}

pub proof fn lemma_dedup<A>(s: Seq<A>)
    ensures
        dedup(s).no_duplicates(),
        forall|x: A| dedup(s).contains(x) <==> s.contains(x),
    decreases s.len(),
{
    if s.len() > 0 {
        lemma_dedup(s.drop_last());
        let r = dedup(s.drop_last());
        assert forall|x: A| dedup(s).contains(x) <==> s.contains(x) by {
            if s.contains(x) {
                let k = choose|k: int| 0 <= k < s.len() && s[k] == x;
                if k < s.len() - 1 {
                    assert(s.drop_last()[k] == x);
                    assert(s.drop_last().contains(x));
                    assert(r.contains(x));
                    if !r.contains(s.last()) {
                        let m = choose|m: int| 0 <= m < r.len() && r[m] == x;
                        assert(r.push(s.last())[m] == x);
                    }
                } else if !r.contains(s.last()) {
                    assert(r.push(s.last())[r.len() as int] == x);
                }
            }
            if dedup(s).contains(x) {
                let m = choose|m: int| 0 <= m < dedup(s).len() && dedup(s)[m] == x;
                if m < r.len() {
                    assert(r[m] == x);
                    assert(r.contains(x));
                    assert(s.drop_last().contains(x));
                    let k = choose|k: int| 0 <= k < s.drop_last().len() && s.drop_last()[k] == x;
                    assert(s[k] == x);
                } else {
                    assert(s[s.len() - 1] == x);
                }
            }
        }
    }
}

/// A list made by `Destinations::new` holds each of the given destinations
/// exactly once, and nothing else.
pub proof fn law_new_holds_each_once(s: Seq<Seq<Seq<char>>>)
    ensures
        dedup(s).no_duplicates(),
        forall|x: Seq<Seq<char>>| dedup(s).contains(x) <==> s.contains(x),
{
    lemma_dedup(s);
}

pub proof fn lemma_contains_push<A>(s: Seq<A>, e: A, x: A)
    ensures
        s.push(e).contains(x) <==> (s.contains(x) || x == e),
{
    if s.contains(x) {
        let m = choose|m: int| 0 <= m < s.len() && s[m] == x;
        assert(s.push(e)[m] == x);
    }
    if x == e {
        assert(s.push(e)[s.len() as int] == x);
    }
    if s.push(e).contains(x) {
        let m = choose|m: int| 0 <= m < s.push(e).len() && s.push(e)[m] == x;
        if m < s.len() {
            assert(s[m] == x);
        }
    }
}

pub proof fn lemma_contains_drop_last<A>(s: Seq<A>, x: A)
    requires
        s.len() > 0,
    ensures
        s.contains(x) <==> (s.drop_last().contains(x) || x == s.last()),
{
    lemma_contains_push(s.drop_last(), s.last(), x);
    assert(s.drop_last().push(s.last()) =~= s);
}

/// Adding lists keeps everything from both, and adding a list without repeats
/// to another without repeats makes a list without repeats.
pub proof fn law_add_keeps_both(a: Seq<Seq<Seq<char>>>, b: Seq<Seq<Seq<char>>>)
    ensures
        forall|x: Seq<Seq<char>>| append_missing(a, b).contains(x) <==> (a.contains(x) || b.contains(x)),
        a.no_duplicates() && b.no_duplicates() ==> append_missing(a, b).no_duplicates(),
    decreases b.len(),
{
    if b.len() > 0 {
        let bl = b.drop_last();
        law_add_keeps_both(a, bl);
        let r = append_missing(a, bl);
        assert forall|x: Seq<Seq<char>>| append_missing(a, b).contains(x) <==> (a.contains(x) || b.contains(x)) by {
            lemma_contains_drop_last(b, x);
            if !a.contains(b.last()) {
                lemma_contains_push(r, b.last(), x);
            }
        }
        if a.no_duplicates() && b.no_duplicates() {
            assert(bl.no_duplicates()) by {
                assert forall|i: int, j: int| 0 <= i < bl.len() && 0 <= j < bl.len() && i != j implies bl[i] != bl[j] by {
                    assert(bl[i] == b[i] && bl[j] == b[j]);
                }
            }
            if !a.contains(b.last()) {
                assert(!bl.contains(b.last())) by {
                    if bl.contains(b.last()) {
                        let k = choose|k: int| 0 <= k < bl.len() && bl[k] == b.last();
                        assert(b[k] == b[b.len() - 1]);
                    }
                }
                assert(!r.contains(b.last()));
                let t = r.push(b.last());
                assert forall|i: int, j: int| 0 <= i < t.len() && 0 <= j < t.len() && i != j implies t[i] != t[j] by {
                    if i < r.len() && j < r.len() {
                        assert(t[i] == r[i] && t[j] == r[j]);
                    } else if i < r.len() {
                        assert(t[i] == r[i]);
                    } else if j < r.len() {
                        assert(t[j] == r[j]);
                    }
                }
            }
        }
    }
}

proof fn lemma_append_missing_disjoint<A>(a: Seq<A>, b: Seq<A>)
    requires
        forall|i: int| 0 <= i < b.len() ==> !a.contains(#[trigger] b[i]),
    ensures
        append_missing(a, b) == a + b,
    decreases b.len(),
{
    if b.len() > 0 {
        assert forall|i: int| 0 <= i < b.drop_last().len() implies !a.contains(#[trigger] b.drop_last()[i]) by {
            assert(b.drop_last()[i] == b[i]);
        }
        lemma_append_missing_disjoint(a, b.drop_last());
        assert(!a.contains(b[b.len() - 1]));
        assert((a + b.drop_last()).push(b.last()) =~= a + b);
    }
}

proof fn lemma_remove_each_prefix<A>(a: Seq<A>, b: Seq<A>, k: int)
    requires
        0 <= k <= b.len(),
        forall|i: int| 0 <= i < b.len() ==> !a.contains(#[trigger] b[i]),
    ensures
        remove_each(a + b, b.take(k)) == a + b.skip(k),
    decreases k,
{
    if k == 0 {
        assert(b.take(0) =~= Seq::<A>::empty());
        assert(b.skip(0) =~= b);
    } else {
        lemma_remove_each_prefix(a, b, k - 1);
        assert(b.take(k).drop_last() =~= b.take(k - 1));
        assert(b.take(k).last() == b[k - 1]);
        let r = a + b.skip(k - 1);
        let x = b[k - 1];
        lemma_first_index(r, x);
        assert(r[a.len() as int] == x);
        assert(!a.contains(x));
        assert forall|j: int| 0 <= j < a.len() implies r[j] != x by {
            assert(r[j] == a[j]);
        }
        assert(first_index(r, x) == a.len());
        assert(r.remove(a.len() as int) =~= a + b.skip(k));
    }
}

/// Removing from a set the destinations just added to it, none of which it
/// held, gives the set back as it was.
pub proof fn law_remove_undoes_add(a: Seq<Seq<Seq<char>>>, b: Seq<Seq<Seq<char>>>)
    requires
        forall|i: int| 0 <= i < b.len() ==> !a.contains(#[trigger] b[i]),
    ensures
        remove_each(append_missing(a, b), b) == a,
{
    lemma_append_missing_disjoint(a, b);
    lemma_remove_each_prefix(a, b, b.len() as int);
    assert(b.take(b.len() as int) =~= b);
    assert(b.skip(b.len() as int) =~= Seq::<Seq<Seq<char>>>::empty());
    assert(a + Seq::<Seq<Seq<char>>>::empty() =~= a);
}

} // verus!
