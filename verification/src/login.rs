use vstd::prelude::*;
use vstd::string::*;

use crate::destination::string_views;
use crate::error::Error;
use crate::json::Json;
use crate::sacctmgr::{shell_split, shell_words};
use crate::slurm::{parse_api_version, version_numbers, version_parses, version_text};
use crate::text::{
    chars_of, dec, is_whitespace, is_ws, join, push_decimal, push_str, split, split_chars, string_of,
    views,
};

verus! {

broadcast use vstd::string::group_string_axioms;

/// The token command as it is run: `command`, then `username=` and the
/// Slurm user where the process runs as another user, then `lifespan=` and
/// the token's lifespan in seconds, each after a space.
pub open spec fn token_command_text(command: Seq<char>, user: Seq<char>, process_user: Seq<char>, lifespan: u32) -> Seq<char> {
    let named = if process_user != user {
        command + " username="@ + user
    } else {
        command
    };
    named + " lifespan="@ + dec(lifespan as nat)
}

/// The token command to run for `user` from a process running as
/// `process_user`; see `token_command_text`.
pub fn token_command_line(command: &str, user: &str, process_user: &str, lifespan: u32) -> (r: String)
    ensures
        r@ == token_command_text(command@, user@, process_user@, lifespan),
{
    let mut v: Vec<char> = Vec::new();
    push_str(&mut v, command);
    if !crate::text::str_eq(process_user, user) {
        push_str(&mut v, " username=");
        push_str(&mut v, user);
    }
    push_str(&mut v, " lifespan=");
    push_decimal(&mut v, lifespan as u64);
    string_of(&v)
}

/// The program and arguments of the token command `line`, split as a shell
/// would.
pub fn token_command_words(line: &str) -> (r: Result<Vec<String>, Error>)
    ensures
        match shell_words(line@) {
            None => r matches Err(Error::Any(m)) && m@ == "Could not parse token command"@,
            Some(ws) => if ws.len() == 0 {
                r matches Err(Error::Any(m)) && m@ == "No token command"@
            } else {
                r matches Ok(v) && string_views(v@) == ws
            },
        },
{
    match shell_split(line) {
        None => Err(Error::Any(String::from_str("Could not parse token command"))),
        Some(v) => if v.len() == 0 {
            Err(Error::Any(String::from_str("No token command")))
        } else {
            Ok(v)
        },
    }
}

/// The whitespace-separated words of `s`, as `str::split_whitespace` yields
/// them: the longest runs of characters that are not whitespace, in order.
pub open spec fn words(s: Seq<char>) -> Seq<Seq<char>>
    decreases s.len(),
{
    if s.len() == 0 {
        Seq::empty()
    } else {
        let before = words(s.drop_last());
        let c = s.last();
        if is_ws(c) {
            before
        } else if s.len() >= 2 && !is_ws(s[s.len() - 2]) {
            before.update(before.len() - 1, before.last().push(c))
        } else {
            before.push(seq![c])
        }
    }
}

/// The words of `v`; see `words`.
fn words_of(v: &Vec<char>) -> (r: Vec<Vec<char>>)
    ensures
        views(r@) == words(v@),
{
    let mut done: Vec<Vec<char>> = Vec::new();
    let mut cur: Vec<char> = Vec::new();
    let mut i: usize = 0;
    assert(v@.take(0) =~= Seq::<char>::empty());
    assert(views(done@) =~= Seq::<Seq<char>>::empty());
    while i < v.len()
        invariant
            i <= v@.len(),
            cur@.len() > 0 <==> (i > 0 && !is_ws(v@[i - 1])),
            words(v@.take(i as int)) == if cur@.len() > 0 {
                views(done@).push(cur@)
            } else {
                views(done@)
            },
        decreases v@.len() - i,
    {
        let c = v[i];
        let ghost prefix = v@.take(i + 1);
        assert(prefix.drop_last() =~= v@.take(i as int));
        assert(prefix.last() == c);
        if is_whitespace(c) {
            if cur.len() > 0 {
                let ghost before = done@;
                let w = cur;
                cur = Vec::new();
                done.push(w);
                assert(views(done@) =~= views(before).push(w@));
            }
        } else {
            if cur.len() > 0 {
                assert(prefix[prefix.len() - 2] == v@[i - 1]);
                let ghost was = cur@;
                cur.push(c);
                assert(views(done@).push(cur@) =~= views(done@).push(was).update(
                    views(done@).len() as int,
                    was.push(c),
                ));
            } else {
                cur.push(c);
                assert(cur@ =~= seq![c]);
                if i > 0 {
                    assert(prefix[prefix.len() - 2] == v@[i - 1]);
                }
            }
        }
        i = i + 1;
    }
    assert(v@.take(v@.len() as int) =~= v@);
    if cur.len() > 0 {
        let ghost before = done@;
        let w = cur;
        done.push(w);
        assert(views(done@) =~= views(before).push(w@));
    }
    done
}

/// The first word holding `=`, if any.
pub open spec fn first_assignment(ws: Seq<Seq<char>>) -> Option<Seq<char>>
    decreases ws.len(),
{
    if ws.len() == 0 {
        None
    } else if ws[0].contains('=') {
        Some(ws[0])
    } else {
        first_assignment(ws.drop_first())
    }
}

/// The token in the output of a token command (which reads like
/// `JWT: SLURM_JWT=<token>`): the text after the first `=` of the first
/// word that holds one, up to any second `=`. The output never appears in
/// the error, since it may hold a credential.
pub fn token_from_output(output: &str) -> (r: Result<String, Error>)
    ensures
        match first_assignment(words(output@)) {
            Some(w) => r matches Ok(t) && t@ == split(w, '=')[1],
            None => r matches Err(Error::Any(m)) && m@ == "Could not find a '<name>=<token>' field in the token command's output. The output is not reported here because it may contain a credential - run the configured token command by hand to see it."@,
        },
{
    let ws = words_of(&chars_of(output));
    let ghost all = views(ws@);
    let mut i: usize = 0;
    assert(all.skip(0) =~= all);
    while i < ws.len()
        invariant
            i <= ws@.len(),
            all == views(ws@),
            all == words(output@),
            first_assignment(all) == first_assignment(all.skip(i as int)),
        decreases ws@.len() - i,
    {
        assert(all.skip(i as int).drop_first() =~= all.skip(i + 1));
        assert(all.skip(i as int)[0] == ws@[i as int]@);
        let w = &ws[i];
        let at = position_of(w, '=');
        if let Some(j) = at {
            assert(w@.contains('='));
            let pieces = split_chars(w, '=');
            proof {
                lemma_split_has_second(w@, '=', j as int);
            }
            return Ok(string_of(&pieces[1]));
        }
        i = i + 1;
    }
    Err(Error::Any(String::from_str("Could not find a '<name>=<token>' field in the token command's output. The output is not reported here because it may contain a credential - run the configured token command by hand to see it.")))
}

/// Where `c` first stands in `w`, if it does.
fn position_of(w: &Vec<char>, c: char) -> (r: Option<usize>)
    ensures
        r matches Some(j) ==> j < w@.len() && w@[j as int] == c,
        r is None ==> !w@.contains(c),
{
    let mut j: usize = 0;
    while j < w.len()
        invariant
            j <= w@.len(),
            forall|k: int| 0 <= k < j ==> w@[k] != c,
        decreases w@.len() - j,
    {
        if w[j] == c {
            return Some(j);
        }
        j = j + 1;
    }
    assert(!w@.contains(c)) by {
        if w@.contains(c) {
            let k = choose|k: int| 0 <= k < w@.len() && w@[k] == c;
        }
    }
    None
}

/// A text that holds the separator splits into at least two pieces.
proof fn lemma_split_has_second(s: Seq<char>, sep: char, k: int)
    requires
        0 <= k < s.len(),
        s[k] == sep,
    ensures
        split(s, sep).len() >= 2,
    decreases s.len(),
{
    crate::text::lemma_split_len(s.drop_last(), sep);
    if k < s.len() - 1 {
        lemma_split_has_second(s.drop_last(), sep, k);
    }
}

/// The version the server reports in its OpenAPI description, `info.version`
/// (such as `dbv0.0.40`): its version text and numbers.
pub fn openapi_version(spec: &Json) -> (r: Result<(String, Vec<u32>), Error>)
    ensures
        match spec.field("info"@) {
            None => r matches Err(Error::Any(m)) && m@ == "Could not find 'info' section in OpenAPI specification"@,
            Some(info) => match info.field("version"@) {
                None => r matches Err(Error::Any(m)) && m@ == "Could not find 'version' field in OpenAPI specification"@,
                Some(v) => match v.text() {
                    None => r matches Err(Error::Any(m)) && m@ == "Could not convert version to string"@,
                    Some(t) => {
                        &&& split(t, 'v').len() < 2 ==> (r matches Err(Error::Any(m)) && m@ == "Could not split version"@)
                        &&& split(t, 'v').len() >= 2 && version_parses(version_text(t)) ==> (r matches Ok((x, ns))
                            && x@ == version_text(t) && ns@ == version_numbers(version_text(t)))
                        &&& split(t, 'v').len() >= 2 && !version_parses(version_text(t)) ==> (r matches Err(
                            Error::Any(m),
                        ) && m@ == "Could not parse version numbers"@)
                    },
                },
            },
        },
{
    let info = match spec.get("info") {
        Some(i) => i,
        None => return Err(Error::Any(String::from_str("Could not find 'info' section in OpenAPI specification"))),
    };
    let version = match info.get("version") {
        Some(v) => v,
        None => return Err(Error::Any(String::from_str("Could not find 'version' field in OpenAPI specification"))),
    };
    let text = match version.as_str() {
        Some(t) => t,
        None => return Err(Error::Any(String::from_str("Could not convert version to string"))),
    };
    parse_api_version(text)
}

/// Version numbers written with dots between them, such as `0.0.40`.
pub open spec fn dotted(ns: Seq<u32>) -> Seq<char> {
    join(ns.map_values(|n: u32| dec(n as nat)), "."@)
}

/// The version numbers `ns` written with dots between them.
pub fn dotted_version(ns: &Vec<u32>) -> (r: String)
    ensures
        r@ == dotted(ns@),
{
    let ghost parts = ns@.map_values(|n: u32| dec(n as nat));
    let mut v: Vec<char> = Vec::new();
    let mut i: usize = 0;
    assert(parts.take(0) =~= Seq::<Seq<char>>::empty());
    while i < ns.len()
        invariant
            i <= ns@.len(),
            parts == ns@.map_values(|n: u32| dec(n as nat)),
            v@ == join(parts.take(i as int), "."@),
        decreases ns@.len() - i,
    {
        let ghost before = v@;
        assert(parts.take(i + 1).drop_last() =~= parts.take(i as int));
        assert(parts.take(i + 1).last() == dec(ns@[i as int] as nat));
        if i > 0 {
            push_str(&mut v, ".");
        }
        push_decimal(&mut v, ns[i] as u64);
        if i == 0 {
            assert(v@ =~= parts.take(1)[0]);
        } else {
            assert(v@ =~= join(parts.take(i as int), "."@) + "."@ + dec(ns@[i as int] as nat));
        }
        i = i + 1;
    }
    assert(parts.take(ns@.len() as int) =~= parts);
    string_of(&v)
}

/// The next version to try after `ns`: the same with its third number one
/// higher; `None` where there is no third number, or it can go no higher.
pub fn next_patch(ns: &Vec<u32>) -> (r: Option<Vec<u32>>)
    ensures
        match r {
            Some(m) => ns@.len() >= 3 && ns@[2] < u32::MAX && m@ == ns@.update(2, (ns@[2] + 1) as u32),
            None => ns@.len() < 3 || ns@[2] == u32::MAX,
        },
{
    if ns.len() < 3 {
        return None;
    }
    match ns[2].checked_add(1) {
        None => None,
        Some(p) => {
            let mut m = ns.clone();
            m.set(2, p);
            Some(m)
        },
    }
}
/// What follows a ping of one version of the Slurm API while looking for the
/// highest that works.
#[derive(Debug)]
pub enum Probe {
    /// The version pinged works: remember it as `working`, and ping `next`.
    Next { next: Vec<u32>, working: String },
    /// Stop looking, and use this version.
    Use(String),
}

/// The step after pinging the version `tried`, with `working` the last
/// version that answered, if any. A failed ping ends the search with the
/// last working version, or with an error where none has worked. A
/// successful one makes `tried` the working version and moves to the next
/// patch, unless `tried` has no patch number that can go higher, in which
/// case `tried` is used.
pub fn after_ping(tried: &Vec<u32>, ping_ok: bool, working: Option<String>) -> (r: Result<Probe, Error>)
    ensures
        !ping_ok ==> match working {
            Some(w) => r matches Ok(Probe::Use(v)) && v@ == w@,
            None => r matches Err(Error::Login(m)) && m@ == "Could not find a working version of the Slurm API"@,
        },
        ping_ok && tried@.len() >= 3 && tried@[2] < u32::MAX ==> (r matches Ok(Probe::Next { next, working })
            && next@ == tried@.update(2, (tried@[2] + 1) as u32) && working@ == dotted(tried@)),
        ping_ok && !(tried@.len() >= 3 && tried@[2] < u32::MAX) ==> (r matches Ok(Probe::Use(v)) && v@
            == dotted(tried@)),
{
    if !ping_ok {
        return match working {
            Some(w) => Ok(Probe::Use(w)),
            None => Err(Error::Login(String::from_str("Could not find a working version of the Slurm API"))),
        };
    }
    let now_working = dotted_version(tried);
    match next_patch(tried) {
        Some(next) => Ok(Probe::Next { next, working: now_working }),
        None => Ok(Probe::Use(now_working)),
    }
}


/// The name of one cluster in a reply to the clusters query, `unknown` where
/// it gives none as a string.
pub open spec fn cluster_name_of(c: Json) -> Seq<char> {
    match c.field("name"@) {
        Some(n) => match n.text() {
            Some(t) => t,
            None => "unknown"@,
        },
        None => "unknown"@,
    }
}

/// The cluster names of a reply to the clusters query, or why there are none.
pub open spec fn cluster_list(response: Json) -> Result<Seq<Seq<char>>, Seq<char>> {
    match response.field("clusters"@) {
        None => Err("Could not get clusters from response"@),
        Some(c) => match c.items() {
            None => Err("Clusters is not an array"@),
            Some(items) => if items.len() == 0 {
                Err("No clusters found"@)
            } else {
                Ok(items.map_values(|i: Json| cluster_name_of(i)))
            },
        },
    }
}

/// The names of the clusters in a reply to the clusters query.
pub fn cluster_names_of(response: &Json) -> (r: Result<Vec<String>, Error>)
    ensures
        match cluster_list(*response) {
            Ok(names) => r matches Ok(v) && string_views(v@) == names,
            Err(m) => r matches Err(Error::Login(e)) && e@ == m,
        },
{
    let list = match response.get("clusters") {
        Some(l) => l,
        None => return Err(Error::Login(String::from_str("Could not get clusters from response"))),
    };
    let items = match list.as_array() {
        Some(items) => items,
        None => return Err(Error::Login(String::from_str("Clusters is not an array"))),
    };
    if items.len() == 0 {
        return Err(Error::Login(String::from_str("No clusters found")));
    }
    let ghost want = items@.map_values(|i: Json| cluster_name_of(i));
    let mut names: Vec<String> = Vec::new();
    let mut k: usize = 0;
    while k < items.len()
        invariant
            k <= items@.len(),
            want == items@.map_values(|i: Json| cluster_name_of(i)),
            string_views(names@) == want.take(k as int),
        decreases items@.len() - k,
    {
        let name = match items[k].get("name") {
            Some(n) => match n.as_str() {
                Some(t) => String::from_str(t),
                None => String::from_str("unknown"),
            },
            None => String::from_str("unknown"),
        };
        assert(name@ == want[k as int]);
        let ghost before = names@;
        names.push(name);
        assert(string_views(names@) =~= string_views(before).push(name@));
        assert(want.take(k + 1) =~= want.take(k as int).push(want[k as int]));
        k = k + 1;
    }
    assert(want.take(items@.len() as int) =~= want);
    Ok(names)
}

/// The cluster a session works on, given the clusters the server reports
/// and the one requested, if any: none at all is an error, as is a
/// requested cluster the server does not report; with none requested, the
/// first reported.
pub open spec fn chosen_cluster(names: Seq<Seq<char>>, requested: Option<Seq<char>>) -> Result<Seq<char>, Seq<char>> {
    if names.len() == 0 {
        Err("No clusters found"@)
    } else {
        match requested {
            Some(c) => if names.contains(c) {
                Ok(c)
            } else {
                Err("Requested cluster not found"@)
            },
            None => Ok(names[0]),
        }
    }
}

/// Choose the cluster to work on; see `chosen_cluster`.
pub fn choose_cluster(names: &Vec<String>, requested: Option<&str>) -> (r: Result<String, Error>)
    ensures
        match chosen_cluster(string_views(names@), match requested {
            Some(c) => Some(c@),
            None => None,
        }) {
            Ok(c) => r matches Ok(n) && n@ == c,
            Err(m) => r matches Err(Error::Login(e)) && e@ == m,
        },
{
    let ghost ns = string_views(names@);
    if names.len() == 0 {
        return Err(Error::Login(String::from_str("No clusters found")));
    }
    match requested {
        Some(c) => {
            let mut j: usize = 0;
            while j < names.len()
                invariant
                    j <= names@.len(),
                    names@.len() > 0,
                    requested == Some(c),
                    ns == string_views(names@),
                    forall|k: int| 0 <= k < j ==> ns[k] != c@,
                decreases names@.len() - j,
            {
                assert(ns[j as int] == names@[j as int]@);
                if crate::text::str_eq(names[j].as_str(), c) {
                    assert(ns.contains(c@));
                    return Ok(String::from_str(c));
                }
                j = j + 1;
            }
            assert(!ns.contains(c@)) by {
                if ns.contains(c@) {
                    let k = choose|k: int| 0 <= k < ns.len() && ns[k] == c@;
                }
            }
            Err(Error::Login(String::from_str("Requested cluster not found")))
        },
        None => {
            assert(ns[0] == names@[0]@);
            Ok(names[0].clone())
        },
    }
}

/// What to do next with a call to slurmrestd.
#[derive(Debug)]
pub enum CallAction {
    /// Send the request.
    Send,
    /// The token was refused: mark the login failed, reconnect, and try again.
    Reconnect,
    /// The call is over, with this reply or error.
    Done(Result<Json, Error>),
}

/// Whether a reply lists errors: it has an `errors` array that is not empty.
pub open spec fn lists_errors(body: Json) -> bool {
    match body.field("errors"@) {
        Some(e) => match e.items() {
            Some(items) => items.len() > 0,
            None => false,
        },
        None => false,
    }
}

/// The next step of a call to `url` as `user` with `seconds_left` before
/// the request expires. With no reply yet (`status` is `None`), the request
/// is sent if at least five seconds remain. A reply of 401 asks for a new
/// login and another try; 500 is an error; another success gives back the
/// decoded `body` unless it lists errors (or could not be decoded); any
/// other status is an error. The messages quote the reply as the HTTP and
/// JSON libraries write it: `status_text` the status, `response_text` the
/// response, and `errors_text` the list of errors.
pub fn call_outcome(
    seconds_left: i64,
    status: Option<u16>,
    body: Option<Json>,
    url: &str,
    user: &str,
    status_text: &str,
    response_text: &str,
    errors_text: &str,
) -> (r: CallAction)
    ensures
        match status {
            None => if seconds_left < 5 {
                r matches CallAction::Done(Err(Error::Call(m))) && m@
                    == "Not enough time left to call Slurm server"@
            } else {
                r is Send
            },
            Some(s) => if s == 401 {
                r is Reconnect
            } else if s == 500 {
                r matches CallAction::Done(Err(Error::Call(m))) && m@ == "500 error - slurmrestd error when calling "@
                    + url@ + " as user "@ + user@ + "."@
            } else if 200 <= s <= 299 {
                match body {
                    None => r matches CallAction::Done(Err(Error::Any(m))) && m@
                        == "Could not decode json from response"@,
                    Some(b) => if lists_errors(b) {
                        r matches CallAction::Done(Err(Error::Call(m))) && m@ == "Slurmrestd errors: "@
                            + errors_text@
                    } else {
                        r == CallAction::Done(Ok(b))
                    },
                }
            } else {
                r matches CallAction::Done(Err(Error::Call(m))) && m@ == "Could not get response for function: "@
                    + url@ + ". Status: "@ + status_text@ + ". Response: "@ + response_text@
            },
        },
{
    let s = match status {
        None => {
            if seconds_left < 5 {
                return CallAction::Done(Err(Error::Call(String::from_str("Not enough time left to call Slurm server"))));
            }
            return CallAction::Send;
        },
        Some(s) => s,
    };
    if s == 401 {
        return CallAction::Reconnect;
    }
    if s == 500 {
        let mut m: Vec<char> = Vec::new();
        push_str(&mut m, "500 error - slurmrestd error when calling ");
        push_str(&mut m, url);
        push_str(&mut m, " as user ");
        push_str(&mut m, user);
        push_str(&mut m, ".");
        return CallAction::Done(Err(Error::Call(string_of(&m))));
    }
    if 200 <= s && s <= 299 {
        return match body {
            None => CallAction::Done(Err(Error::Any(String::from_str("Could not decode json from response")))),
            Some(b) => {
                let listed = match b.get("errors") {
                    Some(e) => match e.as_array() {
                        Some(items) => items.len() > 0,
                        None => false,
                    },
                    None => false,
                };
                if listed {
                    let mut m: Vec<char> = Vec::new();
                    push_str(&mut m, "Slurmrestd errors: ");
                    push_str(&mut m, errors_text);
                    CallAction::Done(Err(Error::Call(string_of(&m))))
                } else {
                    CallAction::Done(Ok(b))
                }
            },
        };
    }
    let mut m: Vec<char> = Vec::new();
    push_str(&mut m, "Could not get response for function: ");
    push_str(&mut m, url);
    push_str(&mut m, ". Status: ");
    push_str(&mut m, status_text);
    push_str(&mut m, ". Response: ");
    push_str(&mut m, response_text);
    CallAction::Done(Err(Error::Call(string_of(&m))))
}

} // verus!
