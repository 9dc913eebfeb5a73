use vstd::prelude::*;
use vstd::string::*;
use vstd::utf8::*;

use crate::error::Error;
use crate::text::{
    chars_of, dec, digit_char, first_index, keep, keys, lemma_first_index, lemma_keep, lookup,
    push_decimal, push_str, split, split_chars, string_of, trim, trim_chars, views,
};

verus! {

broadcast use vstd::string::group_string_axioms;

/// A request refused by the bridge: why, and the HTTP status to answer with.
#[derive(Debug)]
pub struct AppError {
    pub message: String,
    pub status: Option<u16>,
}

/// Which canonical-string form a request signature was computed over.
#[derive(Debug, Clone, Copy, PartialEq, Eq, Structural)]
pub enum SignatureVersion {
    /// The first form: fields joined by newlines, nothing more.
    V1,
    /// Length-prefixed, fixed-arity, version-tagged.
    V2,
}

impl SignatureVersion {
    /// The version a request declares through its version header (`None`
    /// when it sends none), or `V1` if it declares none. Any value other than
    /// `1` or `2` is refused with 400 rather than read as `V1`.
    pub fn from_header_value(value: Option<&[u8]>) -> (r: Result<SignatureVersion, AppError>)
        ensures
            value is None ==> r == Ok::<SignatureVersion, AppError>(SignatureVersion::V1),
            value matches Some(v) && v@ == seq![49u8] ==> r == Ok::<SignatureVersion, AppError>(
                SignatureVersion::V1,
            ),
            value matches Some(v) && v@ == seq![50u8] ==> r == Ok::<SignatureVersion, AppError>(
                SignatureVersion::V2,
            ),
            value matches Some(v) && v@ != seq![49u8] && v@ != seq![50u8] ==> (r matches Err(e)
                && e.status == Some(400u16) && e.message@ == "Unrecognised signature version"@),
    {
        match value {
            None => Ok(SignatureVersion::V1),
            Some(v) => {
                if v.len() == 1 && v[0] == 49 {
                    assert(v@ =~= seq![49u8]);
                    Ok(SignatureVersion::V1)
                } else if v.len() == 1 && v[0] == 50 {
                    assert(v@ =~= seq![50u8]);
                    Ok(SignatureVersion::V2)
                } else {
                    Err(
                        AppError {
                            message: String::from_str("Unrecognised signature version"),
                            status: Some(400),
                        },
                    )
                }
            },
        }
    }

    /// The value to send in the version header.
    pub fn as_header_value(&self) -> (r: &'static str)
        ensures
            *self == SignatureVersion::V1 ==> r@ == "1"@,
            *self == SignatureVersion::V2 ==> r@ == "2"@,
    {
        match self {
            SignatureVersion::V1 => "1",
            SignatureVersion::V2 => "2",
        }
    }
}

pub open spec fn newline() -> Seq<char> {
    seq!['\n']
}

/// The first canonical string: protocol, content type, date and function,
/// then the body if there is one, then the nonce if there is one, each on a
/// line of its own.
pub open spec fn v1_text(
    protocol: Seq<char>,
    date: Seq<char>,
    function: Seq<char>,
    body: Seq<char>,
    nonce: Option<Seq<char>>,
) -> Seq<char> {
    let head = protocol + newline() + "application/json"@ + newline() + date + newline()
        + function;
    let with_body = if body.len() == 0 {
        head
    } else {
        head + newline() + body
    };
    match nonce {
        Some(n) => with_body + newline() + n,
        None => with_body,
    }
}

/// The number of bytes in the UTF-8 encoding of `s`.
pub open spec fn utf8_len(s: Seq<char>) -> nat {
    encode_utf8(s).len()
}

/// One field of the second canonical form: its byte length, a colon, itself.
pub open spec fn field(s: Seq<char>) -> Seq<char> {
    dec(utf8_len(s)) + seq![':'] + s
}

/// A field, then a newline, then `rest`.
pub open spec fn line(value: Seq<char>, rest: Seq<char>) -> Seq<char> {
    field(value) + (newline() + rest)
}

/// The unambiguous canonical string: seven length-prefixed fields, one per
/// line, led by a version tag; an absent nonce is an empty field.
pub open spec fn v2_text(
    protocol: Seq<char>,
    date: Seq<char>,
    function: Seq<char>,
    body: Seq<char>,
    nonce: Option<Seq<char>>,
) -> Seq<char> {
    let n = match nonce {
        Some(n) => n,
        None => Seq::<char>::empty(),
    };
    line(
        "openportal-sig-v2"@,
        line(
            protocol,
            line("application/json"@, line(date, line(function, line(body, field(n))))),
        ),
    )
}

pub open spec fn optional_view(o: Option<&str>) -> Option<Seq<char>> {
    match o {
        Some(s) => Some(s@),
        None => None,
    }
}

/// The first canonical string, kept byte for byte so that existing
/// clients keep verifying.
pub fn v1_call_string(
    protocol: &str,
    date: &str,
    function: &str,
    body: &str,
    nonce: Option<&str>,
) -> (r: String)
    ensures
        r@ == v1_text(protocol@, date@, function@, body@, optional_view(nonce)),
{
    let mut v: Vec<char> = Vec::new();
    push_str(&mut v, protocol);
    v.push('\n');
    push_str(&mut v, "application/json");
    v.push('\n');
    push_str(&mut v, date);
    v.push('\n');
    push_str(&mut v, function);
    if !body.is_empty() {
        v.push('\n');
        push_str(&mut v, body);
    }
    match nonce {
        Some(n) => {
            v.push('\n');
            push_str(&mut v, n);
        },
        None => {},
    }
    assert(v@ =~= v1_text(protocol@, date@, function@, body@, optional_view(nonce)));
    string_of(&v)
}

fn push_field(v: &mut Vec<char>, s: &str)
    ensures
        final(v)@ == old(v)@ + field(s@),
{
    let n = s.as_bytes().len();
    push_decimal(v, n as u64);
    v.push(':');
    push_str(v, s);
    assert(final(v)@ =~= old(v)@ + field(s@));
}

/// The unambiguous canonical string: every field is present once, prefixed
/// with its byte length.
pub fn v2_call_string(
    protocol: &str,
    date: &str,
    function: &str,
    body: &str,
    nonce: Option<&str>,
) -> (r: String)
    ensures
        r@ == v2_text(protocol@, date@, function@, body@, optional_view(nonce)),
{
    let mut v: Vec<char> = Vec::new();
    push_field(&mut v, "openportal-sig-v2");
    v.push('\n');
    push_field(&mut v, protocol);
    v.push('\n');
    push_field(&mut v, "application/json");
    v.push('\n');
    push_field(&mut v, date);
    v.push('\n');
    push_field(&mut v, function);
    v.push('\n');
    push_field(&mut v, body);
    v.push('\n');
    match nonce {
        Some(n) => push_field(&mut v, n),
        None => {
            proof {
                reveal_strlit("");
            }
            push_field(&mut v, "");
        },
    }
    assert(v@ =~= v2_text(protocol@, date@, function@, body@, optional_view(nonce)));
    string_of(&v)
}


#[verifier::external_type_specification]
#[verifier::external_body]
pub struct ExUtf8Error(core::str::Utf8Error);

/// `std::str::from_utf8` gives the text a byte slice encodes exactly when
/// the bytes are valid UTF-8, and an error otherwise.
pub assume_specification[ core::str::from_utf8 ](v: &[u8]) -> (r: Result<&str, core::str::Utf8Error>)
    ensures
        r matches Ok(s) ==> s.spec_bytes() == v@,
        r is Err <==> !valid_utf8(v@),
;

/// The date chrono writes, as `"%a, %d %b %Y %H:%M:%S GMT"`, for a UNIX time
/// in whole seconds; `None` where chrono has no date for it.
pub uninterp spec fn http_date_text(seconds: int) -> Option<Seq<char>>;

pub open spec fn optional_string_view(o: Option<String>) -> Option<Seq<char>> {
    match o {
        Some(s) => Some(s@),
        None => None,
    }
}

/// Calls `chrono::DateTime::from_timestamp` and, on success, `format` with
/// the HTTP date pattern: the text is whatever chrono writes for that
/// second, and `None` is what chrono gives for a second outside its range.
#[verifier::external_body]
fn format_http_date(seconds: i64) -> (r: Option<String>)
    ensures
        optional_string_view(r) == http_date_text(seconds as int),
{
    match chrono::DateTime::from_timestamp(seconds, 0) {
        Some(d) => Some(d.format("%a, %d %b %Y %H:%M:%S GMT").to_string()),
        None => None,
    }
}

/// The canonical string of a given version.
pub open spec fn canonical_text(
    version: SignatureVersion,
    protocol: Seq<char>,
    date: Seq<char>,
    function: Seq<char>,
    body: Seq<char>,
    nonce: Option<Seq<char>>,
) -> Seq<char> {
    match version {
        SignatureVersion::V1 => v1_text(protocol, date, function, body, nonce),
        SignatureVersion::V2 => v2_text(protocol, date, function, body, nonce),
    }
}

/// The text whose signature authorises a call: the canonical string of
/// `version` over the HTTP form of the date (a UNIX time in seconds), the
/// protocol, the function, the body (which must be UTF-8) and the nonce.
pub fn signing_text(
    date_seconds: i64,
    protocol: &str,
    function: &str,
    body: &[u8],
    nonce: Option<&str>,
    version: SignatureVersion,
) -> (r: Result<String, Error>)
    ensures
        http_date_text(date_seconds as int) is None ==> (r matches Err(Error::Any(m)) && m@
            == "Could not format the date for signing"@),
        http_date_text(date_seconds as int) is Some && !valid_utf8(body@) ==> (r matches Err(
            Error::Any(m),
        ) && m@ == "Could not parse body as UTF-8 for signing"@),
        valid_utf8(body@) ==> (http_date_text(date_seconds as int) matches Some(d) ==> (r matches Ok(
            t,
        ) && t@ == canonical_text(
            version,
            protocol@,
            d,
            function@,
            decode_utf8(body@),
            optional_view(nonce),
        ))),
{
    broadcast use encode_utf8_decode_utf8;

    let date = match format_http_date(date_seconds) {
        Some(d) => d,
        None => {
            return Err(Error::Any(String::from_str("Could not format the date for signing")));
        },
    };
    let body_str = match core::str::from_utf8(body) {
        Ok(s) => s,
        Err(_) => {
            return Err(Error::Any(String::from_str("Could not parse body as UTF-8 for signing")));
        },
    };
    assert(body_str@ == decode_utf8(body@));
    match version {
        SignatureVersion::V1 => Ok(v1_call_string(protocol, date.as_str(), function, body_str, nonce)),
        SignatureVersion::V2 => Ok(v2_call_string(protocol, date.as_str(), function, body_str, nonce)),
    }
}


/// Upper bound on distinct source addresses tracked for rate limiting.
pub const MAX_RATE_LIMIT_ENTRIES: usize = 8192;

/// Nanoseconds in a second.
pub const NANOS_PER_SECOND: i128 = 1_000_000_000;

/// The address a request came from.
#[derive(Debug, Clone, Copy, PartialEq, Eq, Structural)]
pub enum ClientAddr {
    V4(u32),
    V6(u128),
}

/// Requests counted from one address in its current window, and when that
/// window opened (nanoseconds since the UNIX epoch).
pub type Window = (u32, i64);

/// What the rate limiter decides about one request.
#[derive(Debug, Clone, Copy, PartialEq, Eq, Structural)]
pub enum RateDecision {
    Accept,
    /// The table is full of live addresses and this one is not among them.
    TooManyClients,
    /// This address has used up its window.
    LimitExceeded,
}

/// The windows whose start is after `cutoff`.
pub open spec fn live_window(cutoff: int) -> spec_fn(Window) -> bool {
    |w: Window| w.1 as int > cutoff
}

/// The list with `k` given the value `v`: in place if `k` is listed, else
/// appended.
pub open spec fn put<K, V>(s: Seq<(K, V)>, k: K, v: V) -> Seq<(K, V)> {
    let i = first_index(keys(s), k);
    if i >= 0 {
        s.update(i, (k, v))
    } else {
        s.push((k, v))
    }
}

/// The table a request leaves behind, and the decision on it. Once the table
/// holds `MAX_RATE_LIMIT_ENTRIES` addresses, windows that opened more than two
/// window lengths ago are dropped; if it is still full, an address not in it
/// is refused. Otherwise a window older than its length starts afresh with
/// this request, a window that has had `max_attempts` requests refuses, and
/// any other window counts the request.
pub open spec fn rate_limit_step(
    table: Seq<(ClientAddr, Window)>,
    max_attempts: u32,
    window_seconds: i64,
    ip: ClientAddr,
    now: i64,
) -> (Seq<(ClientAddr, Window)>, RateDecision) {
    let window = window_seconds as int * NANOS_PER_SECOND;
    let full = table.len() >= MAX_RATE_LIMIT_ENTRIES;
    let live = if full {
        keep(table, live_window(now as int - 2 * window))
    } else {
        table
    };
    if full && live.len() >= MAX_RATE_LIMIT_ENTRIES && lookup(live, ip) is None {
        (live, RateDecision::TooManyClients)
    } else {
        let entry = match lookup(live, ip) {
            Some(w) => w,
            None => (0u32, now),
        };
        if now as int - entry.1 as int > window {
            (put(live, ip, (1u32, now)), RateDecision::Accept)
        } else if entry.0 >= max_attempts {
            (put(live, ip, entry), RateDecision::LimitExceeded)
        } else {
            (put(live, ip, ((entry.0 + 1) as u32, entry.1)), RateDecision::Accept)
        }
    }
}

/// The largest window, in seconds, that chrono can double as a duration.
pub const MAX_WINDOW_SECONDS: i64 = 4_611_686_018_427_387;

/// Counts the requests from each source address in fixed windows.
#[derive(Debug)]
pub struct RateLimiter {
    attempts: Vec<(ClientAddr, Window)>,
    max_attempts: u32,
    window_seconds: i64,
}

/// Entries of `entries` kept by `p`, as a new list.
fn keep_windows(entries: &Vec<(ClientAddr, Window)>, cutoff: i128) -> (r: Vec<(ClientAddr, Window)>)
    ensures
        r@ == keep(entries@, live_window(cutoff as int)),
{
    let ghost p = live_window(cutoff as int);
    let mut out: Vec<(ClientAddr, Window)> = Vec::new();
    let mut i: usize = 0;
    assert(entries@.take(0) =~= Seq::<(ClientAddr, Window)>::empty());
    while i < entries.len()
        invariant
            i <= entries@.len(),
            p == live_window(cutoff as int),
            out@ == keep(entries@.take(i as int), p),
        decreases entries@.len() - i,
    {
        let e = entries[i];
        assert(entries@.take(i + 1).drop_last() =~= entries@.take(i as int));
        if (e.1).1 as i128 > cutoff {
            out.push(e);
        }
        i = i + 1;
    }
    assert(entries@.take(entries@.len() as int) =~= entries@);
    out
}

/// Where `ip` is listed, if it is.
fn find_addr(entries: &Vec<(ClientAddr, Window)>, ip: ClientAddr) -> (r: Option<usize>)
    ensures
        r is None ==> lookup(entries@, ip) is None && first_index(keys(entries@), ip) < 0,
        r matches Some(i) ==> i < entries@.len() && i == first_index(keys(entries@), ip)
            && entries@[i as int].0 == ip && lookup(entries@, ip) == Some(entries@[i as int].1),
{
    proof {
        lemma_first_index(keys(entries@), ip);
    }
    let mut i: usize = 0;
    while i < entries.len()
        invariant
            i <= entries@.len(),
            forall|j: int| 0 <= j < i ==> keys(entries@)[j] != ip,
        decreases entries@.len() - i,
    {
        assert(keys(entries@)[i as int] == entries@[i as int].0);
        if entries[i].0 == ip {
            proof {
                lemma_first_index(keys(entries@), ip);
            }
            return Some(i);
        }
        i = i + 1;
    }
    proof {
        lemma_first_index(keys(entries@), ip);
    }
    None
}

/// Putting a key keeps the keys distinct.
proof fn lemma_put_distinct<K, V>(s: Seq<(K, V)>, k: K, v: V)
    requires
        keys(s).no_duplicates(),
    ensures
        keys(put(s, k, v)).no_duplicates(),
        put(s, k, v).len() == if keys(s).contains(k) {
            s.len()
        } else {
            s.len() + 1
        },
        lookup(put(s, k, v), k) == Some(v),
{
    lemma_first_index(keys(s), k);
    let i = first_index(keys(s), k);
    let t = put(s, k, v);
    if i >= 0 {
        assert(keys(t) =~= keys(s).update(i, k));
        assert(keys(t) =~= keys(s));
    } else {
        assert(keys(t) =~= keys(s).push(k));
        assert forall|a: int, b: int| 0 <= a < keys(t).len() && 0 <= b < keys(t).len() && a != b implies keys(t)[a] != keys(t)[b] by {
            if a < s.len() && b < s.len() {
                assert(keys(t)[a] == keys(s)[a] && keys(t)[b] == keys(s)[b]);
            } else if a < s.len() {
                assert(keys(t)[a] == keys(s)[a]);
                assert(keys(s).contains(keys(s)[a]));
            } else if b < s.len() {
                assert(keys(t)[b] == keys(s)[b]);
                assert(keys(s).contains(keys(s)[b]));
            }
        }
    }
    lemma_first_index(keys(t), k);
    if i >= 0 {
        assert(keys(t)[i] == k);
    } else {
        assert(keys(t)[s.len() as int] == k);
    }
    assert(first_index(keys(t), k) >= 0);
    let j = first_index(keys(t), k);
    assert(keys(t)[j] == t[j].0);
}

impl RateLimiter {
    #[verifier::type_invariant]
    spec fn well_formed(self) -> bool {
        &&& keys(self.attempts@).no_duplicates()
        &&& -MAX_WINDOW_SECONDS <= self.window_seconds <= MAX_WINDOW_SECONDS
    }

    /// The windows of the addresses seen, in the order first seen.
    pub closed spec fn table(self) -> Seq<(ClientAddr, Window)> {
        self.attempts@
    }

    pub closed spec fn max_attempts_spec(self) -> u32 {
        self.max_attempts
    }

    pub closed spec fn window_seconds_spec(self) -> i64 {
        self.window_seconds
    }

    /// A limiter allowing `max_attempts` requests per address in each window
    /// of `window_seconds`.
    pub fn new(max_attempts: u32, window_seconds: i64) -> (r: Self)
        requires
            -MAX_WINDOW_SECONDS <= window_seconds <= MAX_WINDOW_SECONDS,
        ensures
            r.table() == Seq::<(ClientAddr, Window)>::empty(),
            r.max_attempts_spec() == max_attempts,
            r.window_seconds_spec() == window_seconds,
    {
        let r = RateLimiter { attempts: Vec::new(), max_attempts, window_seconds };
        assert(keys(r.attempts@) =~= Seq::<ClientAddr>::empty());
        r
    }

    /// Count a request from `ip` at `now` (nanoseconds since the UNIX epoch),
    /// refusing it with 429 when the address has used up its window or the
    /// table has no room for a new address.
    pub fn check_rate_limit(&mut self, ip: ClientAddr, now: i64) -> (r: Result<(), AppError>)
        ensures
            final(self).max_attempts_spec() == old(self).max_attempts_spec(),
            final(self).window_seconds_spec() == old(self).window_seconds_spec(),
            (final(self).table(), if r is Ok {
                RateDecision::Accept
            } else if r matches Err(e) && e.message@ == "Too many distinct clients"@ {
                RateDecision::TooManyClients
            } else {
                RateDecision::LimitExceeded
            }) == rate_limit_step(
                old(self).table(),
                old(self).max_attempts_spec(),
                old(self).window_seconds_spec(),
                ip,
                now,
            ),
            r matches Err(e) ==> e.status == Some(429u16) && (e.message@ == "Too many distinct clients"@
                || e.message@ == "Rate limit exceeded"@),
    {
        proof {
            use_type_invariant(&*self);
        }
        let ghost before = self.attempts@;
        let mut entries: Vec<(ClientAddr, Window)> = Vec::new();
        std::mem::swap(&mut entries, &mut self.attempts);
        let window: i128 = self.window_seconds as i128 * NANOS_PER_SECOND;
        let full = entries.len() >= MAX_RATE_LIMIT_ENTRIES;
        if full {
            let cutoff: i128 = now as i128 - 2 * window;
            entries = keep_windows(&entries, cutoff);
            proof {
                lemma_keep(before, live_window(cutoff as int));
            }
        }
        let ghost live = entries@;
        assert(keys(live).no_duplicates());
        let idx = find_addr(&entries, ip);
        if full && entries.len() >= MAX_RATE_LIMIT_ENTRIES && idx.is_none() {
            self.attempts = entries;
            return Err(
                AppError { message: String::from_str("Too many distinct clients"), status: Some(429) },
            );
        }
        let entry: Window = match idx {
            Some(i) => entries[i].1,
            None => (0, now),
        };
        let (next, outcome): (Window, Result<(), AppError>) = if now as i128 - entry.1 as i128 > window {
            ((1, now), Ok(()))
        } else if entry.0 >= self.max_attempts {
            (entry, Err(AppError { message: String::from_str("Rate limit exceeded"), status: Some(429) }))
        } else {
            ((entry.0 + 1, entry.1), Ok(()))
        };
        proof {
            lemma_put_distinct(live, ip, next);
        }
        match idx {
            Some(i) => {
                entries.set(i, (ip, next));
            },
            None => {
                entries.push((ip, next));
            },
        }
        assert(entries@ =~= put(live, ip, next));
        assert("Rate limit exceeded"@ != "Too many distinct clients"@) by {
            reveal_strlit("Too many distinct clients");
            reveal_strlit("Rate limit exceeded");
            assert("Rate limit exceeded"@.len() == 19);
            assert("Too many distinct clients"@.len() == 25);
        }
        self.attempts = entries;
        outcome
    }
}


impl RateLimiter {
    /// Forget the windows that opened more than two window lengths before
    /// `now` (nanoseconds since the UNIX epoch).
    pub fn cleanup_old_entries(&mut self, now: i64)
        ensures
            final(self).max_attempts_spec() == old(self).max_attempts_spec(),
            final(self).window_seconds_spec() == old(self).window_seconds_spec(),
            final(self).table() == keep(
                old(self).table(),
                live_window(now as int - 2 * (old(self).window_seconds_spec() as int * NANOS_PER_SECOND)),
            ),
    {
        proof {
            use_type_invariant(&*self);
        }
        let ghost before = self.attempts@;
        let mut entries: Vec<(ClientAddr, Window)> = Vec::new();
        std::mem::swap(&mut entries, &mut self.attempts);
        let window: i128 = self.window_seconds as i128 * NANOS_PER_SECOND;
        let cutoff: i128 = now as i128 - 2 * window;
        let kept = keep_windows(&entries, cutoff);
        proof {
            lemma_keep(before, live_window(cutoff as int));
        }
        self.attempts = kept;
    }
}


/// The rate-limit table never holds more than `MAX_RATE_LIMIT_ENTRIES`
/// addresses, nor any address twice: a full table refuses a new address
/// rather than grow.
pub proof fn law_rate_table_stays_bounded(
    table: Seq<(ClientAddr, Window)>,
    max_attempts: u32,
    window_seconds: i64,
    ip: ClientAddr,
    now: i64,
)
    requires
        keys(table).no_duplicates(),
        table.len() <= MAX_RATE_LIMIT_ENTRIES,
    ensures
        rate_limit_step(table, max_attempts, window_seconds, ip, now).0.len()
            <= MAX_RATE_LIMIT_ENTRIES,
        keys(rate_limit_step(table, max_attempts, window_seconds, ip, now).0).no_duplicates(),
{
    let window = window_seconds as int * NANOS_PER_SECOND;
    let full = table.len() >= MAX_RATE_LIMIT_ENTRIES;
    let live = if full {
        keep(table, live_window(now as int - 2 * window))
    } else {
        table
    };
    lemma_keep(table, live_window(now as int - 2 * window));
    lemma_first_index(keys(live), ip);
    let entry = match lookup(live, ip) {
        Some(w) => w,
        None => (0u32, now),
    };
    lemma_put_distinct(live, ip, (1u32, now));
    lemma_put_distinct(live, ip, entry);
    lemma_put_distinct(live, ip, ((entry.0 + 1) as u32, entry.1));
}

/// Every window counted in a table holds at most `max_attempts` requests
/// (or the one request that opened it), whatever request comes next.
pub proof fn law_window_counts_stay_within_limit(
    table: Seq<(ClientAddr, Window)>,
    max_attempts: u32,
    window_seconds: i64,
    ip: ClientAddr,
    now: i64,
)
    requires
        keys(table).no_duplicates(),
        forall|i: int| 0 <= i < table.len() ==> (#[trigger] table[i]).1.0 <= max_attempts || table[i].1.0 <= 1,
    ensures
        forall|i: int|
            0 <= i < rate_limit_step(table, max_attempts, window_seconds, ip, now).0.len() ==> (
            #[trigger] rate_limit_step(table, max_attempts, window_seconds, ip, now).0[i]).1.0
                <= max_attempts || rate_limit_step(table, max_attempts, window_seconds, ip, now).0[i].1.0
                <= 1,
{
    let window = window_seconds as int * NANOS_PER_SECOND;
    let full = table.len() >= MAX_RATE_LIMIT_ENTRIES;
    let p = live_window(now as int - 2 * window);
    let live = if full {
        keep(table, p)
    } else {
        table
    };
    lemma_keep(table, p);
    assert forall|i: int| 0 <= i < live.len() implies (#[trigger] live[i]).1.0 <= max_attempts
        || live[i].1.0 <= 1 by {
        if full {
            assert(keep(table, p).contains(live[i]));
            let j = choose|j: int| 0 <= j < table.len() && table[j] == live[i];
            assert(table[j].1.0 <= max_attempts || table[j].1.0 <= 1);
        }
    }
    lemma_first_index(keys(live), ip);
    let k = first_index(keys(live), ip);
    if k >= 0 {
        assert(keys(live)[k] == live[k].0);
        assert(live[k].1.0 <= max_attempts || live[k].1.0 <= 1);
    }
}

/// Once an address's window holds `max_attempts` requests, further requests
/// in that window are refused and leave the window as it was (when the table
/// has room, so that nothing is pruned).
pub proof fn law_exhausted_window_refuses(
    table: Seq<(ClientAddr, Window)>,
    max_attempts: u32,
    window_seconds: i64,
    ip: ClientAddr,
    now: i64,
    count: u32,
    start: i64,
)
    requires
        keys(table).no_duplicates(),
        table.len() < MAX_RATE_LIMIT_ENTRIES,
        lookup(table, ip) == Some((count, start)),
        count >= max_attempts,
        now as int - start as int <= window_seconds as int * NANOS_PER_SECOND,
    ensures
        rate_limit_step(table, max_attempts, window_seconds, ip, now).1
            == RateDecision::LimitExceeded,
        lookup(rate_limit_step(table, max_attempts, window_seconds, ip, now).0, ip) == Some(
            (count, start),
        ),
{
    lemma_put_distinct(table, ip, (count, start));
}


/// How long a nonce is remembered for replay detection, in seconds.
pub const NONCE_TTL_SECONDS: i64 = 30;

/// Hard cap on the number of nonces remembered at once.
pub const MAX_NONCE_ENTRIES: usize = 100_000;

/// Size at which expired nonces are purged.
pub const NONCE_PURGE_THRESHOLD: usize = 4096;

/// A remembered nonce, as text, with when it was last used (nanoseconds
/// since the UNIX epoch).
pub type NonceUse = (Seq<char>, i64);

/// The position of the first of the oldest entries.
pub open spec fn oldest_index(s: Seq<NonceUse>) -> int
    decreases s.len(),
{
    if s.len() <= 1 {
        0
    } else {
        let j = oldest_index(s.drop_last());
        if s.last().1 < s[j].1 {
            s.len() - 1
        } else {
            j
        }
    }
}

pub proof fn lemma_oldest_index(s: Seq<NonceUse>)
    requires
        s.len() > 0,
    ensures
        0 <= oldest_index(s) < s.len(),
        forall|i: int| 0 <= i < s.len() ==> s[oldest_index(s)].1 <= #[trigger] s[i].1,
    decreases s.len(),
{
    if s.len() > 1 {
        lemma_oldest_index(s.drop_last());
        assert forall|i: int| 0 <= i < s.len() implies s[oldest_index(s)].1 <= #[trigger] s[i].1 by {
            if i < s.len() - 1 {
                assert(s.drop_last()[i] == s[i]);
            }
        }
    }
}

/// While the store is full and does not hold `nonce`, forget its oldest
/// entry.
pub open spec fn evict_oldest(s: Seq<NonceUse>, nonce: Seq<char>) -> Seq<NonceUse>
    decreases s.len(),
{
    if s.len() >= MAX_NONCE_ENTRIES && !keys(s).contains(nonce) && s.len() > 0 {
        proof {
            lemma_oldest_index(s);
        }
        evict_oldest(s.remove(oldest_index(s)), nonce)
    } else {
        s
    }
}

/// The nonces used after `now - ttl`.
pub open spec fn recent_nonce(cutoff: int) -> spec_fn(i64) -> bool {
    |t: i64| t as int > cutoff
}

/// The store a request bearing `nonce` at `now` leaves behind, or `None` if
/// the nonce was used less than the time-to-live ago, which is a replay.
/// Otherwise, once the store holds `NONCE_PURGE_THRESHOLD` entries, expired
/// nonces are forgotten; then, while it is full, the oldest; and the nonce is
/// remembered as used now.
pub open spec fn nonce_step(store: Seq<NonceUse>, nonce: Seq<char>, now: i64) -> Option<Seq<NonceUse>> {
    let ttl = NONCE_TTL_SECONDS as int * NANOS_PER_SECOND;
    if lookup(store, nonce) matches Some(last) && (now as int - last as int) < ttl {
        None
    } else {
        let purged = if store.len() >= NONCE_PURGE_THRESHOLD {
            keep(store, recent_nonce(now as int - ttl))
        } else {
            store
        };
        Some(put(evict_oldest(purged, nonce), nonce, now))
    }
}

pub open spec fn nonce_views(v: Seq<(String, i64)>) -> Seq<NonceUse> {
    v.map_values(|e: (String, i64)| (e.0@, e.1))
}

/// The nonces of authenticated requests, remembered for replay detection.
#[derive(Debug)]
pub struct NonceStore {
    entries: Vec<(String, i64)>,
}


fn find_nonce(entries: &Vec<(String, i64)>, nonce: &str) -> (r: Option<usize>)
    ensures
        r is Some <==> keys(nonce_views(entries@)).contains(nonce@),
        r is None ==> lookup(nonce_views(entries@), nonce@) is None && !keys(
            nonce_views(entries@),
        ).contains(nonce@),
        r matches Some(i) ==> i < entries@.len() && i == first_index(
            keys(nonce_views(entries@)),
            nonce@,
        ) && lookup(nonce_views(entries@), nonce@) == Some(entries@[i as int].1),
{
    let ghost ks = keys(nonce_views(entries@));
    proof {
        lemma_first_index(ks, nonce@);
    }
    let mut i: usize = 0;
    while i < entries.len()
        invariant
            i <= entries@.len(),
            ks == keys(nonce_views(entries@)),
            forall|j: int| 0 <= j < i ==> ks[j] != nonce@,
        decreases entries@.len() - i,
    {
        assert(ks[i as int] == entries@[i as int].0@);
        if crate::text::str_eq(entries[i].0.as_str(), nonce) {
            proof {
                lemma_first_index(ks, nonce@);
            }
            return Some(i);
        }
        i = i + 1;
    }
    proof {
        lemma_first_index(ks, nonce@);
    }
    None
}

fn keep_recent(entries: Vec<(String, i64)>, cutoff: i128) -> (r: Vec<(String, i64)>)
    ensures
        nonce_views(r@) == keep(nonce_views(entries@), recent_nonce(cutoff as int)),
{
    let ghost p = recent_nonce(cutoff as int);
    let ghost all = nonce_views(entries@);
    let mut out: Vec<(String, i64)> = Vec::new();
    let mut rest = entries;
    let mut i: usize = 0;
    let n = rest.len();
    assert(all.take(0) =~= Seq::<NonceUse>::empty());
    assert(nonce_views(out@) =~= Seq::<NonceUse>::empty());
    while i < n
        invariant
            i <= n,
            n == rest@.len(),
            nonce_views(rest@) == all,
            p == recent_nonce(cutoff as int),
            nonce_views(out@) == keep(all.take(i as int), p),
        decreases n - i,
    {
        let t = rest[i].1;
        assert(all.take(i + 1).drop_last() =~= all.take(i as int));
        assert(all[i as int] == (rest@[i as int].0@, t));
        if t as i128 > cutoff {
            let key = rest[i].0.clone();
            let ghost before = nonce_views(out@);
            out.push((key, t));
            assert(nonce_views(out@) =~= before.push(all[i as int]));
        }
        i = i + 1;
    }
    assert(all.take(n as int) =~= all);
    out
}

fn oldest(entries: &Vec<(String, i64)>) -> (r: usize)
    requires
        entries@.len() > 0,
    ensures
        r == oldest_index(nonce_views(entries@)),
{
    let ghost all = nonce_views(entries@);
    let mut best: usize = 0;
    let mut i: usize = 1;
    assert(all.take(1).len() == 1);
    while i < entries.len()
        invariant
            1 <= i <= entries@.len(),
            all == nonce_views(entries@),
            best == oldest_index(all.take(i as int)),
            best < i,
        decreases entries@.len() - i,
    {
        assert(all.take(i + 1).drop_last() =~= all.take(i as int));
        assert(all.take(i + 1)[best as int] == all[best as int]);
        if entries[i].1 < entries[best].1 {
            best = i;
        }
        i = i + 1;
    }
    assert(all.take(entries@.len() as int) =~= all);
    best
}

impl NonceStore {
    #[verifier::type_invariant]
    spec fn well_formed(self) -> bool {
        keys(nonce_views(self.entries@)).no_duplicates()
    }

    /// The nonces remembered, each with when it was last used.
    pub closed spec fn uses(self) -> Seq<NonceUse> {
        nonce_views(self.entries@)
    }

    pub fn new() -> (r: Self)
        ensures
            r.uses() == Seq::<NonceUse>::empty(),
    {
        let r = NonceStore { entries: Vec::new() };
        assert(keys(nonce_views(r.entries@)) =~= Seq::<Seq<char>>::empty());
        r
    }

    /// Remember that an authenticated request used `nonce` at `now`
    /// (nanoseconds since the UNIX epoch), refusing it with 401 if it was used
    /// less than `NONCE_TTL_SECONDS` ago.
    pub fn record_nonce(&mut self, nonce: &str, now: i64) -> (r: Result<(), AppError>)
        ensures
            nonce_step(old(self).uses(), nonce@, now) matches Some(s) ==> r is Ok && final(self).uses()
                == s,
            nonce_step(old(self).uses(), nonce@, now) is None ==> final(self).uses() == old(self).uses()
                && (r matches Err(e) && e.status == Some(401u16) && e.message@
                == "Nonce has already been used (replay attack)"@),
    {
        proof {
            use_type_invariant(&*self);
        }
        let ghost start = nonce_views(self.entries@);
        let ttl: i128 = NONCE_TTL_SECONDS as i128 * NANOS_PER_SECOND;
        match find_nonce(&self.entries, nonce) {
            Some(i) => {
                if (now as i128 - self.entries[i].1 as i128) < ttl {
                    return Err(
                        AppError {
                            message: String::from_str("Nonce has already been used (replay attack)"),
                            status: Some(401),
                        },
                    );
                }
            },
            None => {},
        }
        let mut entries: Vec<(String, i64)> = Vec::new();
        std::mem::swap(&mut entries, &mut self.entries);
        if entries.len() >= NONCE_PURGE_THRESHOLD {
            let cutoff: i128 = now as i128 - ttl;
            proof {
                lemma_keep(start, recent_nonce(cutoff as int));
            }
            entries = keep_recent(entries, cutoff);
        }
        let ghost purged = nonce_views(entries@);
        let mut present = find_nonce(&entries, nonce).is_some();
        while entries.len() >= MAX_NONCE_ENTRIES && !present
            invariant
                present == keys(nonce_views(entries@)).contains(nonce@),
                keys(nonce_views(entries@)).no_duplicates(),
                evict_oldest(nonce_views(entries@), nonce@) == evict_oldest(purged, nonce@),
            decreases entries@.len(),
        {
            let o = oldest(&entries);
            let ghost cur = nonce_views(entries@);
            proof {
                lemma_oldest_index(cur);
            }
            let _ = entries.remove(o);
            assert(nonce_views(entries@) =~= cur.remove(o as int));
            assert(keys(nonce_views(entries@)) =~= keys(cur).remove(o as int));
            assert(keys(nonce_views(entries@)).no_duplicates()) by {
                let k = keys(cur);
                let t = keys(nonce_views(entries@));
                assert forall|a: int, b: int| 0 <= a < t.len() && 0 <= b < t.len() && a != b implies t[a] != t[b] by {
                    let a2 = if a < o { a } else { a + 1 };
                    let b2 = if b < o { b } else { b + 1 };
                    assert(t[a] == k[a2] && t[b] == k[b2]);
                }
            }
            present = find_nonce(&entries, nonce).is_some();
        }
        let ghost evicted = nonce_views(entries@);
        let found = find_nonce(&entries, nonce);
        assert(evicted == evict_oldest(purged, nonce@));
        proof {
            lemma_put_distinct(evicted, nonce@, now);
        }
        match found {
            Some(i) => {
                entries.set(i, (String::from_str(nonce), now));
            },
            None => {
                entries.push((String::from_str(nonce), now));
            },
        }
        assert(nonce_views(entries@) =~= put(evicted, nonce@, now));
        self.entries = entries;
        Ok(())
    }
}


proof fn lemma_remove_distinct<K, V>(s: Seq<(K, V)>, i: int)
    requires
        keys(s).no_duplicates(),
        0 <= i < s.len(),
    ensures
        keys(s.remove(i)).no_duplicates(),
        keys(s.remove(i)) == keys(s).remove(i),
{
    let k = keys(s);
    let t = keys(s.remove(i));
    assert(t =~= k.remove(i));
    assert forall|a: int, b: int| 0 <= a < t.len() && 0 <= b < t.len() && a != b implies t[a] != t[b] by {
        let a2 = if a < i { a } else { a + 1 };
        let b2 = if b < i { b } else { b + 1 };
        assert(t[a] == k[a2] && t[b] == k[b2]);
    }
}

proof fn lemma_evict_oldest(s: Seq<NonceUse>, nonce: Seq<char>)
    requires
        keys(s).no_duplicates(),
    ensures
        keys(evict_oldest(s, nonce)).no_duplicates(),
        evict_oldest(s, nonce).len() <= s.len(),
        evict_oldest(s, nonce).len() < MAX_NONCE_ENTRIES || keys(evict_oldest(s, nonce)).contains(nonce),
    decreases s.len(),
{
    if s.len() >= MAX_NONCE_ENTRIES && !keys(s).contains(nonce) && s.len() > 0 {
        lemma_oldest_index(s);
        lemma_remove_distinct(s, oldest_index(s));
        lemma_evict_oldest(s.remove(oldest_index(s)), nonce);
    }
}

/// A nonce is refused if it comes again less than `NONCE_TTL_SECONDS` after
/// it was accepted: replaying an authenticated request within that window
/// fails.
pub proof fn law_replayed_nonce_is_refused(
    store: Seq<NonceUse>,
    nonce: Seq<char>,
    first: i64,
    again: i64,
)
    requires
        keys(store).no_duplicates(),
        nonce_step(store, nonce, first) is Some,
        (again as int - first as int) < NONCE_TTL_SECONDS as int * NANOS_PER_SECOND,
    ensures
        nonce_step(nonce_step(store, nonce, first).unwrap(), nonce, again) is None,
{
    let ttl = NONCE_TTL_SECONDS as int * NANOS_PER_SECOND;
    let purged = if store.len() >= NONCE_PURGE_THRESHOLD {
        keep(store, recent_nonce(first as int - ttl))
    } else {
        store
    };
    lemma_keep(store, recent_nonce(first as int - ttl));
    lemma_evict_oldest(purged, nonce);
    lemma_put_distinct(evict_oldest(purged, nonce), nonce, first);
}

/// A nonce never seen before is accepted, and remembered as used now.
pub proof fn law_fresh_nonce_is_accepted(store: Seq<NonceUse>, nonce: Seq<char>, now: i64)
    requires
        keys(store).no_duplicates(),
        lookup(store, nonce) is None,
    ensures
        nonce_step(store, nonce, now) matches Some(s) && lookup(s, nonce) == Some(now),
{
    let ttl = NONCE_TTL_SECONDS as int * NANOS_PER_SECOND;
    let purged = if store.len() >= NONCE_PURGE_THRESHOLD {
        keep(store, recent_nonce(now as int - ttl))
    } else {
        store
    };
    lemma_keep(store, recent_nonce(now as int - ttl));
    lemma_evict_oldest(purged, nonce);
    lemma_put_distinct(evict_oldest(purged, nonce), nonce, now);
}

/// The store never holds more than `MAX_NONCE_ENTRIES` nonces, nor any nonce
/// twice: when full, the oldest are forgotten rather than the request refused.
pub proof fn law_nonce_store_stays_bounded(store: Seq<NonceUse>, nonce: Seq<char>, now: i64)
    requires
        keys(store).no_duplicates(),
        store.len() <= MAX_NONCE_ENTRIES,
    ensures
        nonce_step(store, nonce, now) matches Some(s) ==> s.len() <= MAX_NONCE_ENTRIES && keys(
            s,
        ).no_duplicates(),
{
    let ttl = NONCE_TTL_SECONDS as int * NANOS_PER_SECOND;
    let purged = if store.len() >= NONCE_PURGE_THRESHOLD {
        keep(store, recent_nonce(now as int - ttl))
    } else {
        store
    };
    lemma_keep(store, recent_nonce(now as int - ttl));
    lemma_evict_oldest(purged, nonce);
    lemma_put_distinct(evict_oldest(purged, nonce), nonce, now);
}


/// Whether `a` and `b` hold the same bytes, looking at every byte of equal
/// length inputs whatever they hold, so that the time taken does not tell
/// where they differ.
pub fn constant_time_eq(a: &[u8], b: &[u8]) -> (r: bool)
    ensures
        r == (a@ == b@),
{
    if a.len() != b.len() {
        return false;
    }
    let mut acc: u8 = 0;
    let mut i: usize = 0;
    while i < a.len()
        invariant
            i <= a@.len(),
            a@.len() == b@.len(),
            acc == 0 <==> (forall|j: int| 0 <= j < i ==> a@[j] == b@[j]),
        decreases a@.len() - i,
    {
        let x = a[i];
        let y = b[i];
        let next = acc | (x ^ y);
        assert(next == 0 <==> (acc == 0 && x == y)) by (bit_vector)
            requires
                next == acc | (x ^ y),
        ;
        acc = next;
        i = i + 1;
    }
    assert(acc == 0 ==> a@ =~= b@);
    acc == 0
}

/// A request header as the bridge reads it: absent, present but not
/// readable as visible ASCII, or its text.
#[derive(Debug)]
pub enum Header {
    Absent,
    Unreadable,
    Text(String),
}

/// The UNIX time, in seconds, that chrono reads from an RFC 2822 date, or
/// `None` where chrono refuses the text.
pub uninterp spec fn rfc2822_seconds(text: Seq<char>) -> Option<int>;

pub open spec fn optional_i64_view(o: Option<i64>) -> Option<int> {
    match o {
        Some(t) => Some(t as int),
        None => None,
    }
}

/// Calls `chrono::DateTime::parse_from_rfc2822` and, on success, `timestamp`:
/// the seconds are whatever chrono reads from the text, and `None` stands for
/// chrono's parse error.
#[verifier::external_body]
fn parse_rfc2822(text: &str) -> (r: Option<i64>)
    ensures
        optional_i64_view(r) == rfc2822_seconds(text@),
{
    match chrono::DateTime::parse_from_rfc2822(text) {
        Ok(d) => Some(d.timestamp()),
        Err(_) => None,
    }
}

/// How far, in seconds, a request's date may be from the server's clock.
pub const MAX_CLOCK_SKEW_SECONDS: i128 = 5;

/// What a request must still prove once its headers have passed: the text
/// whose signature it must carry, the signature it carries, its nonce, and
/// when it was checked (nanoseconds since the UNIX epoch).
#[derive(Debug)]
pub struct PendingCheck {
    pub signing_text: String,
    pub authorization: String,
    pub nonce: Option<String>,
    pub now: i64,
}

pub open spec fn refusal(r: Result<PendingCheck, AppError>, status: Option<u16>, message: Seq<char>) -> bool {
    r matches Err(e) && e.status == status && e.message@ == message
}


/// The version a request declares through its version header.
pub open spec fn declared_version(value: Option<Seq<u8>>) -> Option<SignatureVersion> {
    match value {
        None => Some(SignatureVersion::V1),
        Some(v) => if v == seq![49u8] {
            Some(SignatureVersion::V1)
        } else if v == seq![50u8] {
            Some(SignatureVersion::V2)
        } else {
            None
        },
    }
}

pub open spec fn optional_bytes(o: Option<&[u8]>) -> Option<Seq<u8>> {
    match o {
        Some(b) => Some(b@),
        None => None,
    }
}

/// The signature a request carries: its authorization text, or nothing if
/// that is unreadable.
pub open spec fn carried_key(authorization: Header) -> Seq<char> {
    match authorization {
        Header::Text(s) => s@,
        _ => Seq::empty(),
    }
}

/// The nonce a request carries, if it carries a readable one.
pub open spec fn carried_nonce(nonce: Header) -> Option<Seq<char>> {
    match nonce {
        Header::Text(s) => Some(s@),
        _ => None,
    }
}

/// The checks on a request's headers, in order: it must carry a signature and
/// a readable RFC 2822 date no more than five seconds from `now`
/// (nanoseconds since the UNIX epoch), and declare a known signature version.
/// A request that passes yields the text its signature must match, the
/// signature it carries, and its nonce; one that fails yields the status and
/// message it is refused with.
pub open spec fn header_outcome(
    authorization: Header,
    date: Header,
    nonce: Header,
    version_header: Option<Seq<u8>>,
    protocol: Seq<char>,
    function: Seq<char>,
    body: Seq<u8>,
    now: i64,
) -> Result<(Seq<char>, Seq<char>, Option<Seq<char>>), (Option<u16>, Seq<char>)> {
    if authorization is Absent {
        Err((Some(401u16), "No API key in headers"@))
    } else if date is Absent {
        Err((Some(401u16), "No date in headers"@))
    } else if date is Unreadable {
        Err((Some(401u16), "Could not parse date"@))
    } else {
        let text = match date {
            Header::Text(t) => t@,
            _ => Seq::empty(),
        };
        match rfc2822_seconds(text) {
            None => Err((Some(401u16), "Could not parse date"@)),
            Some(secs) => {
                let skew = now as int - secs * NANOS_PER_SECOND;
                let limit = MAX_CLOCK_SKEW_SECONDS * NANOS_PER_SECOND;
                if skew > limit || -skew > limit {
                    Err((Some(401u16), "Date is outside acceptable time window"@))
                } else {
                    match declared_version(version_header) {
                        None => Err((Some(400u16), "Unrecognised signature version"@)),
                        Some(v) => match http_date_text(secs) {
                            None => Err((None, "Could not format the date for signing"@)),
                            Some(d) => Ok(
                                (
                                    canonical_text(
                                        v,
                                        protocol,
                                        d,
                                        function,
                                        decode_utf8(body),
                                        carried_nonce(nonce),
                                    ),
                                    carried_key(authorization),
                                    carried_nonce(nonce),
                                ),
                            ),
                        },
                    }
                }
            },
        }
    }
}
/// A request that carries a signature and a readable date more than five
/// seconds from the server's clock, ahead of it or behind it, is refused
/// with 401 whatever else it carries; one within five seconds is never
/// refused for its date.
pub proof fn law_a_date_far_from_now_is_refused(
    authorization: Header,
    text: String,
    nonce: Header,
    version_header: Option<Seq<u8>>,
    protocol: Seq<char>,
    function: Seq<char>,
    body: Seq<u8>,
    now: i64,
)
    requires
        !(authorization is Absent),
        rfc2822_seconds(text@) is Some,
    ensures
        ({
            let secs = rfc2822_seconds(text@).unwrap();
            let outcome = header_outcome(authorization, Header::Text(text), nonce, version_header, protocol, function, body, now);
            &&& (now - secs * 1_000_000_000 > 5_000_000_000 || secs * 1_000_000_000 - now > 5_000_000_000)
                ==> outcome == Err::<(Seq<char>, Seq<char>, Option<Seq<char>>), (Option<u16>, Seq<char>)>(
                (Some(401u16), "Date is outside acceptable time window"@))
            &&& (-5_000_000_000 <= now - secs * 1_000_000_000 <= 5_000_000_000) ==> outcome
                != Err::<(Seq<char>, Seq<char>, Option<Seq<char>>), (Option<u16>, Seq<char>)>(
                (Some(401u16), "Date is outside acceptable time window"@))
        }),
{
    reveal_strlit("Date is outside acceptable time window");
    reveal_strlit("Unrecognised signature version");
    reveal_strlit("Could not format the date for signing");
}


fn refuse(status: Option<u16>, message: &str) -> (r: Result<PendingCheck, AppError>)
    ensures
        refusal(r, status, message@),
{
    Err(AppError { message: String::from_str(message), status })
}

/// The header checks of `header_outcome`, made on a request whose body is
/// valid UTF-8.
fn check_headers(
    authorization: Header,
    date: Header,
    nonce: Header,
    version_header: Option<&[u8]>,
    protocol: &str,
    function: &str,
    body: &[u8],
    now: i64,
) -> (r: Result<PendingCheck, AppError>)
    requires
        valid_utf8(body@),
    ensures
        match header_outcome(
            authorization,
            date,
            nonce,
            optional_bytes(version_header),
            protocol@,
            function@,
            body@,
            now,
        ) {
            Err((status, message)) => refusal(r, status, message),
            Ok((text, key, n)) => r matches Ok(p) && p.signing_text@ == text && p.authorization@
                == key && optional_string_view(p.nonce) == n && p.now == now,
        },
{
    let ghost outcome = header_outcome(
        authorization,
        date,
        nonce,
        optional_bytes(version_header),
        protocol@,
        function@,
        body@,
        now,
    );
    let key = match authorization {
        Header::Absent => {
            return refuse(Some(401), "No API key in headers");
        },
        Header::Unreadable => String::new(),
        Header::Text(s) => s,
    };
    let date_text = match date {
        Header::Absent => {
            return refuse(Some(401), "No date in headers");
        },
        Header::Unreadable => {
            return refuse(Some(401), "Could not parse date");
        },
        Header::Text(s) => s,
    };
    let nonce_text: Option<String> = match nonce {
        Header::Text(s) => Some(s),
        _ => None,
    };
    let secs = match parse_rfc2822(date_text.as_str()) {
        Some(t) => t,
        None => {
            return refuse(Some(401), "Could not parse date");
        },
    };
    let skew: i128 = now as i128 - secs as i128 * NANOS_PER_SECOND;
    let limit: i128 = MAX_CLOCK_SKEW_SECONDS * NANOS_PER_SECOND;
    if skew > limit || -skew > limit {
        return refuse(Some(401), "Date is outside acceptable time window");
    }
    let version = match SignatureVersion::from_header_value(version_header) {
        Ok(v) => v,
        Err(e) => {
            return Err(e);
        },
    };
    let nonce_ref: Option<&str> = match &nonce_text {
        Some(n) => Some(n.as_str()),
        None => None,
    };
    match signing_text(secs, protocol, function, body, nonce_ref, version) {
        Ok(text) => Ok(PendingCheck { signing_text: text, authorization: key, nonce: nonce_text, now }),
        Err(e) => Err(AppError { message: e.message(), status: None }),
    }
}


/// The checks a request must pass before its signature is computed, in the
/// order the bridge makes them: a body that is valid UTF-8 (else 400), a
/// resolved client address (else 500), the rate limit (else 429), then the
/// header checks of `header_outcome`. The rate limiter counts the request
/// whenever the first two pass. The caller signs `signing_text` with the
/// bridge's key and hands the result to `finish_verification`.
pub fn begin_verification(
    limiter: &mut RateLimiter,
    body: &[u8],
    client_ip: Option<ClientAddr>,
    authorization: Header,
    date: Header,
    nonce: Header,
    version_header: Option<&[u8]>,
    protocol: &str,
    function: &str,
    now: i64,
) -> (r: Result<PendingCheck, AppError>)
    ensures
        final(limiter).max_attempts_spec() == old(limiter).max_attempts_spec(),
        final(limiter).window_seconds_spec() == old(limiter).window_seconds_spec(),
        !valid_utf8(body@) ==> refusal(r, Some(400u16), "Request body must be valid UTF-8"@)
            && final(limiter).table() == old(limiter).table(),
        valid_utf8(body@) && client_ip is None ==> refusal(
            r,
            Some(500u16),
            "Could not determine the client address"@,
        ) && final(limiter).table() == old(limiter).table(),
        valid_utf8(body@) ==> (client_ip matches Some(ip) ==> ({
            let step = rate_limit_step(
                old(limiter).table(),
                old(limiter).max_attempts_spec(),
                old(limiter).window_seconds_spec(),
                ip,
                now,
            );
            &&& final(limiter).table() == step.0
            &&& step.1 == RateDecision::TooManyClients ==> refusal(
                r,
                Some(429u16),
                "Too many distinct clients"@,
            )
            &&& step.1 == RateDecision::LimitExceeded ==> refusal(
                r,
                Some(429u16),
                "Rate limit exceeded"@,
            )
            &&& step.1 == RateDecision::Accept ==> match header_outcome(
                authorization,
                date,
                nonce,
                optional_bytes(version_header),
                protocol@,
                function@,
                body@,
                now,
            ) {
                Err((status, message)) => refusal(r, status, message),
                Ok((text, key, n)) => r matches Ok(p) && p.signing_text@ == text && p.authorization@
                    == key && optional_string_view(p.nonce) == n && p.now == now,
            }
        })),
{
    if core::str::from_utf8(body).is_err() {
        return refuse(Some(400), "Request body must be valid UTF-8");
    }
    let ip = match client_ip {
        Some(ip) => ip,
        None => {
            return refuse(Some(500), "Could not determine the client address");
        },
    };
    match limiter.check_rate_limit(ip, now) {
        Ok(()) => {},
        Err(e) => {
            proof {
                reveal_strlit("Too many distinct clients");
                reveal_strlit("Rate limit exceeded");
                assert("Rate limit exceeded"@.len() == 19);
                assert("Too many distinct clients"@.len() == 25);
            }
            return Err(e);
        },
    }
    check_headers(authorization, date, nonce, version_header, protocol, function, body, now)
}

/// The last checks on a request whose signature `expected` has been
/// computed: the signature it carries must match (else 401), and its nonce,
/// if it has one, must not be a replay (else 401); an accepted nonce is
/// remembered.
pub fn finish_verification(
    pending: &PendingCheck,
    expected: &str,
    store: &mut NonceStore,
) -> (r: Result<(), AppError>)
    ensures
        encode_utf8(pending.authorization@) != expected.spec_bytes() ==> (r matches Err(e)
            && e.status == Some(401u16) && e.message@ == "API key is invalid!"@)
            && final(store).uses() == old(store).uses(),
        encode_utf8(pending.authorization@) == expected.spec_bytes() && pending.nonce is None ==> r
            is Ok && final(store).uses() == old(store).uses(),
        encode_utf8(pending.authorization@) == expected.spec_bytes() ==> (pending.nonce matches Some(
            n,
        ) ==> match nonce_step(old(store).uses(), n@, pending.now) {
            Some(s) => r is Ok && final(store).uses() == s,
            None => final(store).uses() == old(store).uses() && (r matches Err(e) && e.status
                == Some(401u16) && e.message@ == "Nonce has already been used (replay attack)"@),
        }),
{
    let matches = constant_time_eq(pending.authorization.as_str().as_bytes(), expected.as_bytes());
    if !matches {
        return Err(AppError { message: String::from_str("API key is invalid!"), status: Some(401) });
    }
    match &pending.nonce {
        Some(n) => store.record_nonce(n.as_str(), pending.now),
        None => Ok(()),
    }
}

/// The entries of an `X-Forwarded-For` value, left to right, each trimmed:
/// what is read as an address, or found not to be one, from the right.
pub open spec fn forwarded_entry_texts_spec(header: Seq<char>) -> Seq<Seq<char>> {
    split(header, ',').map_values(|p: Seq<char>| trim(p))
}

/// Split an `X-Forwarded-For` value into its trimmed entries.
pub fn forwarded_entry_texts(header: &str) -> (r: Vec<String>)
    ensures
        r@.map_values(|s: String| s@) == forwarded_entry_texts_spec(header@),
{
    let pieces = split_chars(&chars_of(header), ',');
    let ghost want = forwarded_entry_texts_spec(header@);
    let mut out: Vec<String> = Vec::new();
    let mut i: usize = 0;
    while i < pieces.len()
        invariant
            i <= pieces@.len(),
            views(pieces@) == split(header@, ','),
            want == forwarded_entry_texts_spec(header@),
            out@.map_values(|s: String| s@) == want.take(i as int),
        decreases pieces@.len() - i,
    {
        let t = trim_chars(&pieces[i]);
        assert(views(pieces@)[i as int] == pieces@[i as int]@);
        let ghost before = out@;
        out.push(string_of(&t));
        assert(out@.map_values(|s: String| s@) =~= before.map_values(|s: String| s@).push(t@));
        assert(want.take(i + 1) =~= want.take(i as int).push(want[i as int]));
        i = i + 1;
    }
    assert(want.take(pieces@.len() as int) =~= want);
    out
}


/// One entry of an `X-Forwarded-For` list: an address, with whether it is
/// one of the trusted proxies, or text that is not an address.
#[derive(Debug, Clone, Copy, PartialEq, Eq, Structural)]
pub enum ForwardedEntry {
    Address(ClientAddr, bool),
    Unparseable,
}

/// The right-most entry that is not a trusted proxy, reading from the right
/// and stopping at the first entry that is not an address.
pub open spec fn rightmost_untrusted(entries: Seq<ForwardedEntry>) -> Option<ClientAddr>
    decreases entries.len(),
{
    if entries.len() == 0 {
        None
    } else {
        match entries.last() {
            ForwardedEntry::Unparseable => None,
            ForwardedEntry::Address(ip, trusted) => if trusted {
                rightmost_untrusted(entries.drop_last())
            } else {
                Some(ip)
            },
        }
    }
}

/// The client address a trusted proxy reports: the right-most untrusted
/// entry of `X-Forwarded-For` (`None` when that header is absent or
/// unreadable), else the `X-Real-IP` address.
pub fn forwarded_ip(forwarded: Option<&Vec<ForwardedEntry>>, real_ip: Option<ClientAddr>) -> (r: Option<ClientAddr>)
    ensures
        r == forwarded_ip_spec(forwarded, real_ip),
{
    if let Some(entries) = forwarded {
        let mut i: usize = entries.len();
        let mut stop = false;
        assert(entries@.take(i as int) =~= entries@);
        while i > 0 && !stop
            invariant
                i <= entries@.len(),
                forwarded == Some(entries),
                rightmost_untrusted(entries@) == rightmost_untrusted(entries@.take(i as int)),
                stop ==> rightmost_untrusted(entries@) is None,
            decreases i + if stop { 0int } else { 1int },
        {
            let ghost t = entries@.take(i as int);
            assert(t.drop_last() =~= entries@.take(i - 1));
            assert(t.last() == entries@[i - 1]);
            match entries[i - 1] {
                ForwardedEntry::Unparseable => {
                    stop = true;
                },
                ForwardedEntry::Address(ip, trusted) => {
                    if !trusted {
                        return Some(ip);
                    }
                    i = i - 1;
                },
            }
        }
        assert(entries@.take(0) =~= Seq::<ForwardedEntry>::empty());
    }
    real_ip
}

/// Entries a client prepends to `X-Forwarded-For` cannot change the address
/// read from it once a proxy has appended an untrusted one, so a client
/// cannot choose its own rate-limit bucket.
pub proof fn law_prepended_entries_cannot_spoof(prefix: Seq<ForwardedEntry>, appended: Seq<ForwardedEntry>)
    requires
        rightmost_untrusted(appended) is Some,
    ensures
        rightmost_untrusted(prefix + appended) == rightmost_untrusted(appended),
    decreases appended.len(),
{
    assert((prefix + appended).drop_last() =~= prefix + appended.drop_last());
    assert((prefix + appended).last() == appended.last());
    if let ForwardedEntry::Address(ip, trusted) = appended.last() {
        if trusted {
            law_prepended_entries_cannot_spoof(prefix, appended.drop_last());
        }
    }
}

/// The address read from `X-Forwarded-For` is never that of a trusted proxy.
pub proof fn law_forwarded_address_is_untrusted(entries: Seq<ForwardedEntry>)
    ensures
        rightmost_untrusted(entries) matches Some(ip) ==> entries.contains(
            ForwardedEntry::Address(ip, false),
        ),
    decreases entries.len(),
{
    if entries.len() > 0 {
        law_forwarded_address_is_untrusted(entries.drop_last());
        if let ForwardedEntry::Address(ip, trusted) = entries.last() {
            if !trusted {
                assert(entries[entries.len() - 1] == ForwardedEntry::Address(ip, false));
            } else if rightmost_untrusted(entries.drop_last()) is Some {
                let a = rightmost_untrusted(entries.drop_last()).unwrap();
                let k = choose|k: int| 0 <= k < entries.drop_last().len() && entries.drop_last()[k]
                    == ForwardedEntry::Address(a, false);
                assert(entries[k] == ForwardedEntry::Address(a, false));
            }
        }
    }
}


/// The address a request is attributed to: the TCP peer's, unless the peer
/// is a trusted proxy, in which case the address it forwards, if any.
pub fn resolve_client_ip(
    peer: ClientAddr,
    peer_is_trusted: bool,
    forwarded: Option<&Vec<ForwardedEntry>>,
    real_ip: Option<ClientAddr>,
) -> (r: ClientAddr)
    ensures
        !peer_is_trusted ==> r == peer,
        peer_is_trusted ==> r == (match forwarded_ip_spec(forwarded, real_ip) {
            Some(ip) => ip,
            None => peer,
        }),
{
    if peer_is_trusted {
        match forwarded_ip(forwarded, real_ip) {
            Some(ip) => ip,
            None => peer,
        }
    } else {
        peer
    }
}

/// The address `forwarded_ip` reads.
pub open spec fn forwarded_ip_spec(forwarded: Option<&Vec<ForwardedEntry>>, real_ip: Option<ClientAddr>) -> Option<ClientAddr> {
    match forwarded {
        Some(f) => match rightmost_untrusted(f@) {
            Some(ip) => Some(ip),
            None => real_ip,
        },
        None => real_ip,
    }
}


proof fn lemma_utf8_len_concat(x: Seq<char>, y: Seq<char>)
    ensures
        utf8_len(x + y) == utf8_len(x) + utf8_len(y),
    decreases x.len(),
{
    if x.len() > 0 {
        assert((x + y).drop_first() =~= x.drop_first() + y);
        assert((x + y)[0] == x[0]);
        lemma_utf8_len_concat(x.drop_first(), y);
    } else {
        assert(x + y =~= y);
    }
}

proof fn lemma_utf8_len_positive(x: Seq<char>)
    requires
        x.len() > 0,
    ensures
        utf8_len(x) > 0,
{
    assert(encode_scalar(x[0] as u32).len() >= 1);
}

proof fn lemma_dec_digits(n: nat)
    ensures
        dec(n).len() >= 1,
        n >= 10 ==> dec(n).len() >= 2,
        forall|i: int| 0 <= i < dec(n).len() ==> 48 <= (#[trigger] dec(n)[i]) as u32 <= 57,
    decreases n,
{
    if n >= 10 {
        lemma_dec_digits(n / 10);
        let d = dec(n / 10);
        assert forall|i: int| 0 <= i < dec(n).len() implies 48 <= (#[trigger] dec(n)[i]) as u32
            <= 57 by {
            if i < d.len() {
                assert(dec(n)[i] == d[i]);
            }
        }
    }
}

proof fn lemma_digit_char(d: int)
    requires
        0 <= d < 10,
    ensures
        digit_char(d) as u32 == 48 + d,
{
}

proof fn lemma_dec_injective(a: nat, b: nat)
    requires
        dec(a) == dec(b),
    ensures
        a == b,
    decreases a,
{
    lemma_dec_digits(a);
    lemma_dec_digits(b);
    lemma_digit_char((a % 10) as int);
    lemma_digit_char((b % 10) as int);
    if a < 10 && b < 10 {
        lemma_digit_char(a as int);
        lemma_digit_char(b as int);
        assert(dec(a)[0] == dec(b)[0]);
        assert(dec(a)[0] == digit_char(a as int));
        assert(dec(b)[0] == digit_char(b as int));
    }
    if a >= 10 && b >= 10 {
        assert(dec(a).last() == dec(b).last());
        assert(dec(a).last() == digit_char((a % 10) as int));
        assert(dec(b).last() == digit_char((b % 10) as int));
        assert(a % 10 == b % 10);
        assert(dec(a).drop_last() == dec(b).drop_last());
        assert(dec(a).drop_last() =~= dec(a / 10));
        assert(dec(b).drop_last() =~= dec(b / 10));
        lemma_dec_injective(a / 10, b / 10);
        assert(a == (a / 10) * 10 + a % 10);
        assert(b == (b / 10) * 10 + b % 10);
    }
}

/// Two fields that open equal texts are the same field, and what follows
/// them is the same: a field's content can never be read as a boundary.
proof fn lemma_field_prefix(x: Seq<char>, y: Seq<char>, r1: Seq<char>, r2: Seq<char>)
    requires
        field(x) + r1 == field(y) + r2,
    ensures
        x == y,
        r1 == r2,
{
    let a = dec(utf8_len(x));
    let b = dec(utf8_len(y));
    let t = field(x) + r1;
    lemma_dec_digits(utf8_len(x));
    lemma_dec_digits(utf8_len(y));
    assert(t[a.len() as int] == ':');
    assert((field(y) + r2)[b.len() as int] == ':');
    if a.len() < b.len() {
        assert((field(y) + r2)[a.len() as int] == b[a.len() as int]);
        assert(false);
    }
    if b.len() < a.len() {
        assert(t[b.len() as int] == a[b.len() as int]);
        assert(false);
    }
    assert(a =~= t.take(a.len() as int));
    assert(b =~= (field(y) + r2).take(b.len() as int));
    lemma_dec_injective(utf8_len(x), utf8_len(y));
    let rest = t.skip(a.len() as int + 1);
    assert(rest =~= x + r1);
    assert(rest =~= y + r2);
    if x.len() < y.len() {
        assert(y.take(x.len() as int) =~= x) by {
            assert forall|i: int| 0 <= i < x.len() implies y[i] == x[i] by {
                assert(rest[i] == x[i]);
                assert(rest[i] == y[i]);
            }
        }
        assert(y =~= y.take(x.len() as int) + y.skip(x.len() as int));
        lemma_utf8_len_concat(y.take(x.len() as int), y.skip(x.len() as int));
        lemma_utf8_len_positive(y.skip(x.len() as int));
        assert(false);
    }
    if y.len() < x.len() {
        assert(x.take(y.len() as int) =~= y) by {
            assert forall|i: int| 0 <= i < y.len() implies x[i] == y[i] by {
                assert(rest[i] == x[i]);
                assert(rest[i] == y[i]);
            }
        }
        assert(x =~= x.take(y.len() as int) + x.skip(y.len() as int));
        lemma_utf8_len_concat(x.take(y.len() as int), x.skip(y.len() as int));
        lemma_utf8_len_positive(x.skip(y.len() as int));
        assert(false);
    }
    assert(x =~= rest.take(x.len() as int));
    assert(y =~= rest.take(y.len() as int));
    assert(r1 =~= rest.skip(x.len() as int));
    assert(r2 =~= rest.skip(y.len() as int));
}

/// One field, then a newline, then the rest.
proof fn lemma_field_line(x: Seq<char>, y: Seq<char>, r1: Seq<char>, r2: Seq<char>)
    requires
        field(x) + (newline() + r1) == field(y) + (newline() + r2),
    ensures
        x == y,
        r1 == r2,
{
    lemma_field_prefix(x, y, newline() + r1, newline() + r2);
    assert(r1 =~= (newline() + r1).drop_first());
    assert(r2 =~= (newline() + r2).drop_first());
}

pub open spec fn nonce_or_empty(n: Option<Seq<char>>) -> Seq<char> {
    match n {
        Some(x) => x,
        None => Seq::empty(),
    }
}

/// The second canonical string determines every field it was made from
/// (an absent nonce reads as an empty one): no two different requests share
/// a V2 signature.
pub proof fn law_v2_canonical_string_is_unambiguous(
    p1: Seq<char>,
    d1: Seq<char>,
    f1: Seq<char>,
    b1: Seq<char>,
    n1: Option<Seq<char>>,
    p2: Seq<char>,
    d2: Seq<char>,
    f2: Seq<char>,
    b2: Seq<char>,
    n2: Option<Seq<char>>,
)
    requires
        v2_text(p1, d1, f1, b1, n1) == v2_text(p2, d2, f2, b2, n2),
    ensures
        p1 == p2,
        d1 == d2,
        f1 == f2,
        b1 == b2,
        nonce_or_empty(n1) == nonce_or_empty(n2),
{
    let mime = "application/json"@;
    let m1 = nonce_or_empty(n1);
    let m2 = nonce_or_empty(n2);
    let e1 = line(b1, field(m1));
    let e2 = line(b2, field(m2));
    let c1 = line(f1, e1);
    let c2 = line(f2, e2);
    let g1 = line(d1, c1);
    let g2 = line(d2, c2);
    let h1 = line(mime, g1);
    let h2 = line(mime, g2);
    let q1 = line(p1, h1);
    let q2 = line(p2, h2);
    lemma_field_line("openportal-sig-v2"@, "openportal-sig-v2"@, q1, q2);
    lemma_field_line(p1, p2, h1, h2);
    lemma_field_line(mime, mime, g1, g2);
    lemma_field_line(d1, d2, c1, c2);
    lemma_field_line(f1, f2, e1, e2);
    lemma_field_line(b1, b2, field(m1), field(m2));
    assert(field(m1) + Seq::<char>::empty() =~= field(m1));
    assert(field(m2) + Seq::<char>::empty() =~= field(m2));
    lemma_field_prefix(m1, m2, Seq::<char>::empty(), Seq::<char>::empty());
}

/// Under the second form a nonce sent as a nonce and the same nonce folded
/// into the body sign differently, so the presence of a nonce is
/// authenticated.
pub proof fn law_v2_distinguishes_a_folded_nonce(
    protocol: Seq<char>,
    date: Seq<char>,
    function: Seq<char>,
    body: Seq<char>,
    nonce: Seq<char>,
)
    ensures
        v2_text(protocol, date, function, body, Some(nonce)) != v2_text(
            protocol,
            date,
            function,
            body + newline() + nonce,
            None,
        ),
{
    if v2_text(protocol, date, function, body, Some(nonce)) == v2_text(
        protocol,
        date,
        function,
        body + newline() + nonce,
        None,
    ) {
        law_v2_canonical_string_is_unambiguous(
            protocol,
            date,
            function,
            body,
            Some(nonce),
            protocol,
            date,
            function,
            body + newline() + nonce,
            None,
        );
        assert((body + newline() + nonce).len() > body.len());
    }
}

/// The first form does not authenticate the presence of a nonce: a POST
/// with a nonce reads exactly as one with the nonce folded into its body.
/// This is why the second form exists.
pub proof fn law_v1_folds_a_nonce_into_the_body(
    protocol: Seq<char>,
    date: Seq<char>,
    function: Seq<char>,
    body: Seq<char>,
    nonce: Seq<char>,
)
    requires
        body.len() > 0,
    ensures
        v1_text(protocol, date, function, body, Some(nonce)) == v1_text(
            protocol,
            date,
            function,
            body + newline() + nonce,
            None,
        ),
{
    assert(v1_text(protocol, date, function, body, Some(nonce)) =~= v1_text(
        protocol,
        date,
        function,
        body + newline() + nonce,
        None,
    ));
}

/// The bridge's web server settings as the command line gives them, each
/// falling back to its default.
#[derive(Debug)]
pub struct Defaults {
    url: String,
    ip: String,
    port: u16,
    signal_url: String,
    notification_url: String,
}

/// `o`'s text, or `fallback` where it is `None`.
pub open spec fn text_or(o: Option<String>, fallback: Seq<char>) -> Seq<char> {
    match o {
        Some(s) => s@,
        None => fallback,
    }
}

fn string_or(o: Option<String>, fallback: &str) -> (r: String)
    ensures
        r@ == text_or(o, fallback@),
{
    match o {
        Some(s) => s,
        None => String::from_str(fallback),
    }
}

impl View for Defaults {
    /// The URL, address, port, signal URL and notification URL.
    type V = (Seq<char>, Seq<char>, u16, Seq<char>, Seq<char>);

    closed spec fn view(&self) -> Self::V {
        (self.url@, self.ip@, self.port, self.signal_url@, self.notification_url@)
    }
}

impl Defaults {
    pub fn parse(
        url: Option<String>,
        ip: Option<String>,
        port: Option<u16>,
        signal_url: Option<String>,
        notification_url: Option<String>,
    ) -> (r: Self)
        ensures
            r@.0 == text_or(url, "http://localhost:8042"@),
            r@.1 == text_or(ip, "127.0.0.1"@),
            r@.2 == (match port {
                Some(p) => p,
                None => 8042,
            }),
            r@.3 == text_or(signal_url, "http://localhost/signal"@),
            r@.4 == text_or(notification_url, "http://localhost/notification"@),
    {
        Defaults {
            url: string_or(url, "http://localhost:8042"),
            ip: string_or(ip, "127.0.0.1"),
            port: match port {
                Some(p) => p,
                None => 8042,
            },
            signal_url: string_or(signal_url, "http://localhost/signal"),
            notification_url: string_or(notification_url, "http://localhost/notification"),
        }
    }

    pub fn url(&self) -> (r: String)
        ensures
            r@ == self@.0,
    {
        self.url.clone()
    }

    pub fn ip(&self) -> (r: String)
        ensures
            r@ == self@.1,
    {
        self.ip.clone()
    }

    pub fn port(&self) -> (r: u16)
        ensures
            r == self@.2,
    {
        self.port
    }

    pub fn signal_url(&self) -> (r: String)
        ensures
            r@ == self@.3,
    {
        self.signal_url.clone()
    }

    pub fn notification_url(&self) -> (r: String)
        ensures
            r@ == self@.4,
    {
        self.notification_url.clone()
    }
}

} // verus!
