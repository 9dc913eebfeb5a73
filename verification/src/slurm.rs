use vstd::prelude::*;
use vstd::string::*;
use vstd::utf8::*;

use crate::error::Error;
use crate::json::{call_error, find_named, named_entry, required_str, required_text, Json};
use crate::text::{
    chars_of, first_index, is_ws, lemma_first_index, lemma_split_len, lemma_trim_end_shape,
    lemma_trim_start_shape, lower, lower_char, replace_char, replace_chars, split, split_chars,
    keys, lookup, string_of, to_ascii_lowercase, trim, trim_chars, trim_end, trim_start, views,
};

verus! {

broadcast use vstd::string::group_string_axioms;

/// The organization recorded on every Slurm account and user that this agent
/// manages.
pub fn get_managed_organization() -> (r: String)
    ensures
        r@ == "openportal"@,
{
    String::from_str("openportal")
}

/// A name as Slurm should hold it: trimmed, with `/` and spaces turned into
/// underscores, in ASCII lower case.
pub open spec fn cleaned_name(s: Seq<char>) -> Seq<char> {
    lower(replace_char(replace_char(trim(s), '/', '_'), ' ', '_'))
}

fn clean_name(name: &str) -> (r: Option<String>)
    ensures
        r is None <==> trim(name@).len() == 0,
        r matches Some(n) ==> n@ == cleaned_name(name@),
{
    let v = chars_of(name);
    let t = trim_chars(&v);
    if t.len() == 0 {
        return None;
    }
    let a = replace_chars(&t, '/', '_');
    let b = replace_chars(&a, ' ', '_');
    let c = to_ascii_lowercase(&b);
    Some(string_of(&c))
}

/// The Slurm form of an account name. A name that is empty once trimmed is
/// refused.
pub fn clean_account_name(account: &str) -> (r: Result<String, Error>)
    ensures
        trim(account@).len() == 0 ==> (r matches Err(Error::Call(m)) && m@
            == "Account name is empty"@),
        trim(account@).len() > 0 ==> (r matches Ok(n) && n@ == cleaned_name(account@)),
{
    match clean_name(account) {
        Some(n) => Ok(n),
        None => Err(Error::Call(String::from_str("Account name is empty"))),
    }
}

proof fn lemma_clean_char(x: char)
    requires
        !is_ws(x),
    ensures
        ({
            let y = lower_char(if (if x == '/' { '_' } else { x }) == ' ' { '_' } else { if x == '/' { '_' } else { x } });
            &&& !is_ws(y)
            &&& y != '/'
            &&& y != ' '
            &&& lower_char(y) == y
        }),
{
    let g = if x == '/' { '_' } else { x };
    assert(g != ' ');
    if 65 <= g as u32 <= 90 {
        assert((((g as u32) + 32) as char) as u32 == (g as u32) + 32);
    }
}

/// Cleaning a name that has already been cleaned changes nothing, so a name
/// that Slurm already holds is accepted as it is.
pub proof fn law_cleaning_a_name_twice_changes_nothing(s: Seq<char>)
    requires
        trim(s).len() > 0,
    ensures
        trim(cleaned_name(s)).len() > 0,
        cleaned_name(cleaned_name(s)) == cleaned_name(s),
{
    let t = trim(s);
    lemma_trim_start_shape(s);
    lemma_trim_end_shape(trim_start(s));
    let a = replace_char(t, '/', '_');
    let b = replace_char(a, ' ', '_');
    let c = lower(b);
    assert(c.len() == t.len());
    assert forall|i: int| 0 <= i < c.len() && !is_ws(t[i]) implies {
        &&& !is_ws(#[trigger] c[i])
        &&& c[i] != '/'
        &&& c[i] != ' '
        &&& lower_char(c[i]) == c[i]
    } by {
        lemma_clean_char(t[i]);
    }
    assert(t[0] == trim_start(s)[0]);
    assert(!is_ws(t[0]));
    assert(!is_ws(t.last()));
    assert(!is_ws(c[0]));
    assert(!is_ws(c[c.len() - 1]));
    assert(trim_start(c) == c);
    assert(trim_end(c) == c);
    assert(trim(c) == c);
    assert forall|i: int| 0 <= i < c.len() implies c[i] != '/' && c[i] != ' ' && lower_char(#[trigger] c[i]) == c[i] by {
        if is_ws(t[i]) {
            // a character inside the trimmed text may be whitespace; only a
            // space among them becomes an underscore
            let x = t[i];
            let g = if x == '/' { '_' } else { x };
            let h = if g == ' ' { '_' } else { g };
            assert(c[i] == lower_char(h));
            assert(h != ' ');
            if 65 <= h as u32 <= 90 {
                assert((((h as u32) + 32) as char) as u32 == (h as u32) + 32);
            }
        }
    }
    assert(replace_char(c, '/', '_') =~= c);
    assert(replace_char(c, ' ', '_') =~= c);
    assert(lower(c) =~= c);
}

/// The Slurm form of a user name. A name that is empty once trimmed is
/// refused.
pub fn clean_user_name(user: &str) -> (r: Result<String, Error>)
    ensures
        trim(user@).len() == 0 ==> (r matches Err(Error::Call(m)) && m@
            == "User name is empty"@),
        trim(user@).len() > 0 ==> (r matches Ok(n) && n@ == cleaned_name(user@)),
{
    match clean_name(user) {
        Some(n) => Ok(n),
        None => Err(Error::Call(String::from_str("User name is empty"))),
    }
}


/// The value of a run of decimal digits.
pub open spec fn decimal_value(s: Seq<char>) -> int
    decreases s.len(),
{
    if s.len() == 0 {
        0
    } else {
        decimal_value(s.drop_last()) * 10 + (s.last() as u32 - 48)
    }
}

pub open spec fn is_digit(c: char) -> bool {
    48 <= c as u32 <= 57
}

pub open spec fn all_digits(s: Seq<char>) -> bool {
    forall|i: int| 0 <= i < s.len() ==> is_digit(#[trigger] s[i])
}

/// What `u32::from_str` gives: an optional `+`, then one or more decimal
/// digits whose value fits in a `u32`.
pub open spec fn parse_u32(s: Seq<char>) -> Option<u32> {
    let d = if s.len() > 0 && s[0] == '+' {
        s.drop_first()
    } else {
        s
    };
    if d.len() > 0 && all_digits(d) && decimal_value(d) <= u32::MAX {
        Some(decimal_value(d) as u32)
    } else {
        None
    }
}

proof fn lemma_decimal_nonneg(s: Seq<char>)
    requires
        all_digits(s),
    ensures
        decimal_value(s) >= 0,
    decreases s.len(),
{
    if s.len() > 0 {
        assert(all_digits(s.drop_last())) by {
            assert forall|i: int| 0 <= i < s.drop_last().len() implies is_digit(
                #[trigger] s.drop_last()[i],
            ) by {
                assert(s.drop_last()[i] == s[i]);
            }
        }
        lemma_decimal_nonneg(s.drop_last());
        assert(is_digit(s[s.len() - 1]));
    }
}

/// Parse `v` as `u32::from_str` would.
pub fn parse_u32_chars(v: &Vec<char>) -> (r: Option<u32>)
    ensures
        r == parse_u32(v@),
{
    let start: usize = if v.len() > 0 && v[0] == '+' {
        1
    } else {
        0
    };
    let ghost d = if v@.len() > 0 && v@[0] == '+' {
        v@.drop_first()
    } else {
        v@
    };
    assert(d =~= v@.skip(start as int));
    if start >= v.len() {
        return None;
    }
    let limit: u64 = 0x1_0000_0000;
    let mut acc: u64 = 0;
    let mut i: usize = start;
    while i < v.len()
        invariant
            start <= i <= v.len(),
            d =~= v@.skip(start as int),
            d == (if v@.len() > 0 && v@[0] == '+' {
                v@.drop_first()
            } else {
                v@
            }),
            limit == 0x1_0000_0000,
            all_digits(v@.subrange(start as int, i as int)),
            acc == if decimal_value(v@.subrange(start as int, i as int)) < limit {
                decimal_value(v@.subrange(start as int, i as int))
            } else {
                limit as int
            },
        decreases v.len() - i,
    {
        let c = v[i];
        let u = c as u32;
        if !(48 <= u && u <= 57) {
            assert(!all_digits(d)) by {
                assert(d[i - start] == c);
                assert(!is_digit(d[i - start]));
            }
            return None;
        }
        let ghost pre = v@.subrange(start as int, i as int);
        let ghost next = v@.subrange(start as int, i + 1);
        assert(next.drop_last() =~= pre);
        assert(next.last() == c);
        assert(all_digits(next)) by {
            assert forall|k: int| 0 <= k < next.len() implies is_digit(#[trigger] next[k]) by {
                if k < pre.len() {
                    assert(next[k] == pre[k]);
                }
            }
        }
        proof {
            lemma_decimal_nonneg(pre);
        }
        let digit = (u - 48) as u64;
        assert(decimal_value(next) == decimal_value(pre) * 10 + digit);
        if acc < limit {
            let t = acc * 10 + digit;
            acc = if t < limit {
                t
            } else {
                limit
            };
        } else {
            assert(decimal_value(pre) * 10 + digit >= 0x1_0000_0000) by (nonlinear_arith)
                requires
                    decimal_value(pre) >= 0x1_0000_0000,
                    digit >= 0,
            ;
        }
        i = i + 1;
    }
    assert(v@.subrange(start as int, v.len() as int) =~= d);
    if acc < limit {
        Some(acc as u32)
    } else {
        None
    }
}


/// The version text in a Slurm API tag: what follows the first `v`, up to the
/// next `v`, cut at the first `&`.
pub open spec fn version_text(s: Seq<char>) -> Seq<char> {
    split(split(s, 'v')[1], '&')[0]
}

/// Every dot-separated component of `t` is a number.
pub open spec fn version_parses(t: Seq<char>) -> bool {
    forall|i: int| 0 <= i < split(t, '.').len() ==> (#[trigger] parse_u32(split(t, '.')[i])) is Some
}

/// The numbers of the dot-separated components of `t`.
pub open spec fn version_numbers(t: Seq<char>) -> Seq<u32> {
    split(t, '.').map_values(|p: Seq<char>| parse_u32(p).unwrap())
}

/// Split a Slurm API version tag such as `dbv0.0.40&openapi/slurmdbd` into
/// its version text and numbers. Malformed input is an error.
pub fn parse_api_version(version: &str) -> (r: Result<(String, Vec<u32>), Error>)
    ensures
        split(version@, 'v').len() < 2 ==> (r matches Err(Error::Any(m)) && m@
            == "Could not split version"@),
        split(version@, 'v').len() >= 2 && version_parses(version_text(version@)) ==> (r matches Ok(
            (t, ns),
        ) && t@ == version_text(version@) && ns@ == version_numbers(version_text(version@))),
        split(version@, 'v').len() >= 2 && !version_parses(version_text(version@)) ==> (r matches Err(
            Error::Any(m),
        ) && m@ == "Could not parse version numbers"@),
{
    let v = chars_of(version);
    let pieces = split_chars(&v, 'v');
    if pieces.len() < 2 {
        return Err(Error::Any(String::from_str("Could not split version")));
    }
    assert(pieces@[1]@ == split(version@, 'v')[1]);
    let amp = split_chars(&pieces[1], '&');
    proof {
        lemma_split_len(pieces@[1]@, '&');
    }
    assert(amp@[0]@ == version_text(version@));
    let parts = split_chars(&amp[0], '.');
    let ghost t = version_text(version@);
    let mut numbers: Vec<u32> = Vec::new();
    let mut i: usize = 0;
    while i < parts.len()
        invariant
            i <= parts.len(),
            views(parts@) == split(t, '.'),
            split(version@, 'v').len() >= 2,
            t == version_text(version@),
            numbers@.len() == i,
            forall|k: int| 0 <= k < i ==> parse_u32(#[trigger] split(t, '.')[k]) == Some(numbers@[k]),
        decreases parts.len() - i,
    {
        assert(parts@[i as int]@ == split(t, '.')[i as int]);
        match parse_u32_chars(&parts[i]) {
            Some(n) => {
                numbers.push(n);
            },
            None => {
                return Err(Error::Any(String::from_str("Could not parse version numbers")));
            },
        }
        i = i + 1;
    }
    proof {
        lemma_split_len(t, '.');
    }
    if numbers.len() == 0 {
        let mut m: Vec<char> = Vec::new();
        crate::text::push_str(&mut m, "Slurm reported an empty version string: '");
        crate::text::push_chars(&mut m, &amp[0]);
        crate::text::push_str(&mut m, "'");
        return Err(Error::Login(string_of(&m)));
    }
    assert(numbers@ =~= version_numbers(t));
    Ok((string_of(&amp[0]), numbers))
}


/// The RFC 3986 unreserved bytes: `A-Z a-z 0-9 - . _ ~`.
pub open spec fn is_unreserved(b: u8) -> bool {
    ||| 65 <= b <= 90
    ||| 97 <= b <= 122
    ||| 48 <= b <= 57
    ||| b == 45
    ||| b == 46
    ||| b == 95
    ||| b == 126
}

/// The upper-case hexadecimal digit for `n` (below 16).
pub open spec fn hex_digit(n: int) -> char {
    if n < 10 {
        (48 + n) as char
    } else {
        (55 + n) as char
    }
}

/// One byte of a path segment: itself if unreserved, else `%XX`.
pub open spec fn encode_byte(b: u8) -> Seq<char> {
    if is_unreserved(b) {
        seq![b as char]
    } else {
        seq!['%', hex_digit(b as int / 16), hex_digit(b as int % 16)]
    }
}

/// The percent-encoding of a byte sequence, byte by byte.
pub open spec fn percent_encode(bytes: Seq<u8>) -> Seq<char>
    decreases bytes.len(),
{
    if bytes.len() == 0 {
        Seq::empty()
    } else {
        percent_encode(bytes.drop_last()) + encode_byte(bytes.last())
    }
}

fn hex_char(n: u8) -> (c: char)
    requires
        n < 16,
    ensures
        c == hex_digit(n as int),
{
    if n < 10 {
        let b: u8 = 48 + n;
        assert((b as char) as u32 == b as u32);
        b as char
    } else {
        let b: u8 = 55 + n;
        assert((b as char) as u32 == b as u32);
        b as char
    }
}

/// Percent-encode `segment` so that it is safe inside a URL path: every byte
/// of its UTF-8 encoding outside the unreserved set becomes `%XX`.
pub fn encode_path_segment(segment: &str) -> (r: String)
    ensures
        r@ == percent_encode(segment.spec_bytes()),
{
    let bytes = segment.as_bytes();
    let mut encoded = String::new();
    let mut i: usize = 0;
    while i < bytes.len()
        invariant
            i <= bytes@.len(),
            bytes@ == segment.spec_bytes(),
            encoded@ == percent_encode(bytes@.take(i as int)),
        decreases bytes@.len() - i,
    {
        let b = bytes[i];
        let ghost before = encoded@;
        if (65 <= b && b <= 90) || (97 <= b && b <= 122) || (48 <= b && b <= 57) || b == 45 || b
            == 46 || b == 95 || b == 126 {
            assert((b as char) as u32 == b as u32);
            encoded.push(b as char);
        } else {
            encoded.push('%');
            encoded.push(hex_char(b / 16));
            encoded.push(hex_char(b % 16));
        }
        assert(bytes@.take(i + 1).drop_last() =~= bytes@.take(i as int));
        assert(encoded@ =~= before + encode_byte(b));
        i = i + 1;
    }
    assert(bytes@.take(bytes@.len() as int) =~= bytes@);
    encoded
}


/// A character that may stand in an encoded path segment: an unreserved
/// character or the escape prefix `%`.
pub open spec fn path_safe(c: char) -> bool {
    let u = c as u32;
    ||| c == '%'
    ||| 65 <= u <= 90
    ||| 97 <= u <= 122
    ||| 48 <= u <= 57
    ||| u == 45
    ||| u == 46
    ||| u == 95
    ||| u == 126
}

/// Whatever the segment holds, its encoding holds only unreserved characters
/// and `%`: no `?`, `#`, `/`, `&`, `=`, space or other character can reach the
/// URL path through it.
pub proof fn law_encoded_segment_is_path_safe(bytes: Seq<u8>)
    ensures
        forall|i: int| 0 <= i < percent_encode(bytes).len() ==> path_safe(
            #[trigger] percent_encode(bytes)[i],
        ),
    decreases bytes.len(),
{
    if bytes.len() > 0 {
        law_encoded_segment_is_path_safe(bytes.drop_last());
        let pre = percent_encode(bytes.drop_last());
        let e = encode_byte(bytes.last());
        let b = bytes.last();
        assert(forall|k: int| 0 <= k < e.len() ==> path_safe(#[trigger] e[k])) by {
            if is_unreserved(b) {
                assert((b as char) as u32 == b as u32);
            } else {
                let hi = b as int / 16;
                let lo = b as int % 16;
                assert(0 <= hi < 16);
                assert(0 <= lo < 16);
                assert(path_safe(hex_digit(hi)));
                assert(path_safe(hex_digit(lo)));
            }
        }
        assert forall|i: int| 0 <= i < percent_encode(bytes).len() implies path_safe(
            #[trigger] percent_encode(bytes)[i],
        ) by {
            if i < pre.len() {
                assert(percent_encode(bytes)[i] == pre[i]);
            } else {
                assert(percent_encode(bytes)[i] == e[i - pre.len()]);
            }
        }
    }
}

/// Whether `c` is a hexadecimal digit, in either case.
pub open spec fn is_hex(c: char) -> bool {
    let u = c as u32;
    ||| 48 <= u <= 57
    ||| 65 <= u <= 70
    ||| 97 <= u <= 102
}

/// The value of the hexadecimal digit `c`.
pub open spec fn hex_value(c: char) -> int {
    let u = c as u32;
    if u <= 57 {
        u - 48
    } else if u <= 70 {
        u - 55
    } else {
        u - 87
    }
}

/// The bytes that ASCII text stands for once percent-decoded: `%XX` with two
/// hexadecimal digits is the byte they spell, any other character its own
/// code.
pub open spec fn percent_decode(s: Seq<char>) -> Seq<u8>
    decreases s.len(),
{
    if s.len() == 0 {
        Seq::empty()
    } else if s.len() >= 3 && s[0] == '%' && is_hex(s[1]) && is_hex(s[2]) {
        seq![(hex_value(s[1]) * 16 + hex_value(s[2])) as u8] + percent_decode(s.skip(3))
    } else {
        seq![(s[0] as u32) as u8] + percent_decode(s.skip(1))
    }
}

/// Each byte read as the character of that code.
pub open spec fn byte_chars(bytes: Seq<u8>) -> Seq<char> {
    bytes.map_values(|b: u8| b as char)
}

proof fn lemma_hex_digit(n: int)
    requires
        0 <= n < 16,
    ensures
        is_hex(hex_digit(n)),
        hex_value(hex_digit(n)) == n,
        hex_digit(n) != '%',
{
    if n < 10 {
        assert(((48 + n) as char) as u32 == 48 + n);
    } else {
        assert(((55 + n) as char) as u32 == 55 + n);
    }
}

proof fn lemma_encode_front(bytes: Seq<u8>)
    requires
        bytes.len() > 0,
    ensures
        percent_encode(bytes) == encode_byte(bytes[0]) + percent_encode(bytes.drop_first()),
    decreases bytes.len(),
{
    if bytes.len() == 1 {
        assert(bytes.drop_last() =~= Seq::<u8>::empty());
        assert(bytes.drop_first() =~= Seq::<u8>::empty());
        assert(percent_encode(bytes.drop_last()) =~= Seq::<char>::empty());
        assert(bytes.last() == bytes[0]);
        assert(Seq::<char>::empty() + encode_byte(bytes[0]) =~= encode_byte(bytes[0]));
        assert(percent_encode(bytes) =~= encode_byte(bytes[0]));
        assert(encode_byte(bytes[0]) + Seq::<char>::empty() =~= encode_byte(bytes[0]));
    } else {
        lemma_encode_front(bytes.drop_last());
        assert(bytes.drop_last().drop_first() =~= bytes.drop_first().drop_last());
        assert(bytes.drop_first().last() == bytes.last());
        assert(bytes.drop_last()[0] == bytes[0]);
        let e0 = encode_byte(bytes[0]);
        let mid = percent_encode(bytes.drop_first().drop_last());
        let el = encode_byte(bytes.last());
        assert(percent_encode(bytes) =~= e0 + mid + el);
        assert(percent_encode(bytes.drop_first()) =~= mid + el);
        assert(e0 + mid + el =~= e0 + (mid + el));
    }
}

proof fn lemma_decode_piece(b: u8, rest: Seq<char>)
    ensures
        percent_decode(encode_byte(b) + rest) == seq![b] + percent_decode(rest),
{
    let s = encode_byte(b) + rest;
    if is_unreserved(b) {
        assert((b as char) as u32 == b as u32);
        assert(s[0] == b as char);
        assert(s.skip(1) =~= rest);
        assert(((b as char) as u32) as u8 == b);
    } else {
        let hi = b as int / 16;
        let lo = b as int % 16;
        lemma_hex_digit(hi);
        lemma_hex_digit(lo);
        assert(s[0] == '%');
        assert(s[1] == hex_digit(hi));
        assert(s[2] == hex_digit(lo));
        assert(s.skip(3) =~= rest);
        assert(hi * 16 + lo == b as int);
    }
}

proof fn lemma_encode_len(bytes: Seq<u8>)
    ensures
        percent_encode(bytes).len() >= bytes.len(),
        (exists|i: int| 0 <= i < bytes.len() && !is_unreserved(#[trigger] bytes[i]))
            ==> percent_encode(bytes).len() > bytes.len(),
    decreases bytes.len(),
{
    if bytes.len() > 0 {
        lemma_encode_len(bytes.drop_last());
        if exists|i: int| 0 <= i < bytes.len() && !is_unreserved(#[trigger] bytes[i]) {
            let i = choose|i: int| 0 <= i < bytes.len() && !is_unreserved(#[trigger] bytes[i]);
            if i < bytes.len() - 1 {
                assert(bytes.drop_last()[i] == bytes[i]);
            }
        }
    }
}

proof fn lemma_encode_unreserved(bytes: Seq<u8>)
    requires
        forall|i: int| 0 <= i < bytes.len() ==> is_unreserved(#[trigger] bytes[i]),
    ensures
        percent_encode(bytes) == byte_chars(bytes),
    decreases bytes.len(),
{
    if bytes.len() > 0 {
        assert forall|i: int| 0 <= i < bytes.drop_last().len() implies is_unreserved(
            #[trigger] bytes.drop_last()[i],
        ) by {
            assert(bytes.drop_last()[i] == bytes[i]);
        }
        lemma_encode_unreserved(bytes.drop_last());
        assert(is_unreserved(bytes[bytes.len() - 1]));
        assert(percent_encode(bytes) =~= byte_chars(bytes));
    }
}

/// Percent-decoding an encoded segment gives back exactly the bytes it was
/// made from, and the encoding leaves the bytes as they are exactly when
/// every one of them is unreserved.
pub proof fn law_encoded_segment_decodes_to_its_input(bytes: Seq<u8>)
    ensures
        percent_decode(percent_encode(bytes)) == bytes,
        percent_encode(bytes) == byte_chars(bytes) <==> forall|i: int|
            0 <= i < bytes.len() ==> is_unreserved(#[trigger] bytes[i]),
    decreases bytes.len(),
{
    if bytes.len() > 0 {
        law_encoded_segment_decodes_to_its_input(bytes.drop_first());
        lemma_encode_front(bytes);
        lemma_decode_piece(bytes[0], percent_encode(bytes.drop_first()));
        assert(seq![bytes[0]] + bytes.drop_first() =~= bytes);
    }
    lemma_encode_len(bytes);
    if forall|i: int| 0 <= i < bytes.len() ==> is_unreserved(#[trigger] bytes[i]) {
        lemma_encode_unreserved(bytes);
    }
}

proof fn lemma_ascii_char(c: char)
    requires
        (c as u32) < 128,
    ensures
        '\0' <= c <= '\u{7f}',
{
    assert(c <= '\u{7f}');
}

/// A character that stands for itself in an encoded segment.
pub open spec fn unreserved_char(c: char) -> bool {
    (c as u32) < 128 && is_unreserved((c as u32) as u8)
}

/// The encoding of a text is the text itself exactly when every character of
/// it is unreserved.
pub proof fn law_encoding_keeps_exactly_unreserved_text(text: Seq<char>)
    ensures
        percent_encode(encode_utf8(text)) == text <==> forall|i: int|
            0 <= i < text.len() ==> unreserved_char(#[trigger] text[i]),
{
    let bytes = encode_utf8(text);
    law_encoded_segment_decodes_to_its_input(bytes);
    law_encoded_segment_is_path_safe(bytes);
    if percent_encode(bytes) == text || forall|i: int|
        0 <= i < text.len() ==> unreserved_char(#[trigger] text[i]) {
        assert(is_ascii_chars(text)) by {
            assert forall|i: int| 0 <= i < text.len() implies '\0' <= #[trigger] text[i] <= '\u{7f}' by {
                if percent_encode(bytes) == text {
                    assert(path_safe(percent_encode(bytes)[i]));
                } else {
                    assert(unreserved_char(text[i]));
                }
                assert((text[i] as u32) < 128);
                assert('\u{7f}' as u32 == 127);
                lemma_ascii_char(text[i]);
            }
        }
        is_ascii_chars_encode_utf8(text);
        assert forall|i: int| 0 <= i < text.len() implies (#[trigger] byte_chars(bytes)[i] == text[i]
            && (unreserved_char(text[i]) <==> is_unreserved(bytes[i]))) by {
            assert(text[i] as u8 == bytes[i]);
            assert((text[i] as u32) < 128);
            assert(text[i] as u8 == (text[i] as u32) as u8);
            assert((bytes[i] as char) as u32 == bytes[i] as u32);
        }
        assert(byte_chars(bytes) =~= text);
    }
}


/// One association of a Slurm user with an account on a cluster.
#[derive(Debug)]
pub struct SlurmAssociation {
    user: String,
    account: String,
    cluster: String,
}

impl View for SlurmAssociation {
    /// The user, account and cluster names.
    type V = (Seq<char>, Seq<char>, Seq<char>);

    closed spec fn view(&self) -> Self::V {
        (self.user@, self.account@, self.cluster@)
    }
}

impl Clone for SlurmAssociation {
    fn clone(&self) -> (r: Self)
        ensures
            r@ == self@,
    {
        SlurmAssociation {
            user: self.user.clone(),
            account: self.account.clone(),
            cluster: self.cluster.clone(),
        }
    }
}

impl SlurmAssociation {
    pub fn new(user: &str, account: &str, cluster: &str) -> (r: Self)
        ensures
            r@ == (user@, account@, cluster@),
    {
        SlurmAssociation {
            user: String::from_str(user),
            account: String::from_str(account),
            cluster: String::from_str(cluster),
        }
    }

    pub fn user(&self) -> (r: &str)
        ensures
            r@ == self@.0,
    {
        self.user.as_str()
    }

    pub fn account(&self) -> (r: &str)
        ensures
            r@ == self@.1,
    {
        self.account.as_str()
    }

    pub fn cluster(&self) -> (r: &str)
        ensures
            r@ == self@.2,
    {
        self.cluster.as_str()
    }
}

/// The user, account and cluster of an association as Slurm describes it,
/// the account in its Slurm form; or the message of the first thing missing.
pub open spec fn association_fields(value: Json) -> Result<(Seq<char>, Seq<char>, Seq<char>), Seq<char>> {
    match required_text(
        value,
        "user"@,
        "Could not get user from association"@,
        "Could not get user as string from association"@,
    ) {
        Err(m) => Err(m),
        Ok(user) => match required_text(
            value,
            "account"@,
            "Could not get account from association"@,
            "Could not get account as string from association"@,
        ) {
            Err(m) => Err(m),
            Ok(account) => match required_text(
                value,
                "cluster"@,
                "Could not get cluster from association"@,
                "Could not get cluster as string from association"@,
            ) {
                Err(m) => Err(m),
                Ok(cluster) => if trim(account).len() == 0 {
                    Err("Account name is empty"@)
                } else {
                    Ok((user, cleaned_name(account), cluster))
                },
            },
        },
    }
}

impl SlurmAssociation {
    /// The association that Slurm's JSON `value` describes.
    pub fn construct(value: &Json) -> (r: Result<Self, Error>)
        ensures
            match r {
                Ok(a) => association_fields(*value) == Ok::<_, Seq<char>>(a@),
                Err(e) => e is Call && association_fields(*value) == Err::<(Seq<char>, Seq<char>, Seq<char>), _>(e.text()),
            },
    {
        let user = required_str(
            value,
            "user",
            "Could not get user from association",
            "Could not get user as string from association",
        )?;
        let account = required_str(
            value,
            "account",
            "Could not get account from association",
            "Could not get account as string from association",
        )?;
        let cluster = required_str(
            value,
            "cluster",
            "Could not get cluster from association",
            "Could not get cluster as string from association",
        )?;
        let account = match clean_account_name(account) {
            Ok(a) => a,
            Err(e) => return Err(e),
        };
        Ok(SlurmAssociation { user: String::from_str(user), account, cluster: String::from_str(cluster) })
    }
}

/// A Slurm user: its name, its default account, and its associations.
#[derive(Debug)]
pub struct SlurmUser {
    name: String,
    default_account: Option<String>,
    associations: Vec<SlurmAssociation>,
}

/// The views of a sequence of associations.
pub open spec fn association_views(s: Seq<SlurmAssociation>) -> Seq<(Seq<char>, Seq<char>, Seq<char>)> {
    s.map_values(|a: SlurmAssociation| a@)
}

pub open spec fn optional_text(o: Option<String>) -> Option<Seq<char>> {
    match o {
        Some(s) => Some(s@),
        None => None,
    }
}

impl View for SlurmUser {
    type V = (Seq<char>, Option<Seq<char>>, Seq<(Seq<char>, Seq<char>, Seq<char>)>);

    closed spec fn view(&self) -> Self::V {
        (self.name@, optional_text(self.default_account), association_views(self.associations@))
    }
}

impl SlurmUser {
    pub fn new(name: &str, default_account: Option<&str>, associations: Vec<SlurmAssociation>) -> (r: Self)
        ensures
            r@.0 == name@,
            r@.1 == (match default_account {
                Some(a) => Some(a@),
                None => None,
            }),
            r@.2 == association_views(associations@),
    {
        let default_account = match default_account {
            Some(a) => Some(String::from_str(a)),
            None => None,
        };
        SlurmUser { name: String::from_str(name), default_account, associations }
    }

    pub fn name(&self) -> (r: &str)
        ensures
            r@ == self@.0,
    {
        self.name.as_str()
    }

    pub fn default_account(&self) -> (r: &Option<String>)
        ensures
            optional_text(*r) == self@.1,
    {
        &self.default_account
    }

    pub fn associations(&self) -> (r: &Vec<SlurmAssociation>)
        ensures
            association_views(r@) == self@.2,
    {
        &self.associations
    }
}

/// The associations that the JSON `items` describe, in order; or the
/// message of the first that is incomplete.
pub open spec fn association_list(items: Seq<Json>) -> Result<Seq<(Seq<char>, Seq<char>, Seq<char>)>, Seq<char>>
    decreases items.len(),
{
    if items.len() == 0 {
        Ok(Seq::empty())
    } else {
        match association_list(items.drop_last()) {
            Err(m) => Err(m),
            Ok(before) => match association_fields(items.last()) {
                Err(m) => Err(m),
                Ok(a) => Ok(before.push(a)),
            },
        }
    }
}

/// The name, default account and associations of a user as Slurm describes
/// it; or the message of the first thing missing. A user with no default
/// has none, and one with no associations has an empty list.
pub open spec fn user_fields(value: Json) -> Result<(Seq<char>, Option<Seq<char>>, Seq<(Seq<char>, Seq<char>, Seq<char>)>), Seq<char>> {
    match required_text(value, "name"@, "Could not get name from user"@, "Could not get name as string from user"@) {
        Err(m) => Err(m),
        Ok(name) => {
            let default: Result<Option<Seq<char>>, Seq<char>> = match value.field("default"@) {
                None => Ok(None),
                Some(d) => match d.field("account"@) {
                    None => Err("Could not get default_account as string from user"@),
                    Some(a) => Ok(a.text()),
                },
            };
            match default {
                Err(m) => Err(m),
                Ok(default) => match value.field("associations"@) {
                    None => Ok((name, default, Seq::empty())),
                    Some(list) => match list.items() {
                        None => Err("Associations is not an array"@),
                        Some(items) => match association_list(items) {
                            Err(m) => Err(m),
                            Ok(associations) => Ok((name, default, associations)),
                        },
                    },
                },
            }
        },
    }
}

/// An incomplete association stops the whole list at the first one.
proof fn lemma_association_list_stops(s: Seq<Json>, k: int)
    requires
        0 <= k <= s.len(),
        association_list(s.take(k)) is Err,
    ensures
        association_list(s) == association_list(s.take(k)),
    decreases s.len() - k,
{
    if k < s.len() {
        assert(s.take(k + 1).drop_last() =~= s.take(k));
        lemma_association_list_stops(s, k + 1);
    } else {
        assert(s.take(k) =~= s);
    }
}

/// The associations that the JSON `items` describe, in order.
fn construct_associations(items: &Vec<Json>) -> (r: Result<Vec<SlurmAssociation>, Error>)
    ensures
        match r {
            Ok(v) => association_list(items@) == Ok::<_, Seq<char>>(association_views(v@)),
            Err(e) => e is Call && association_list(items@) == Err::<Seq<(Seq<char>, Seq<char>, Seq<char>)>, _>(e.text()),
        },
{
    let mut associations: Vec<SlurmAssociation> = Vec::new();
    let mut i: usize = 0;
    assert(items@.take(0) =~= Seq::<Json>::empty());
    assert(association_views(associations@) =~= Seq::empty());
    while i < items.len()
        invariant
            i <= items@.len(),
            association_list(items@.take(i as int)) == Ok::<_, Seq<char>>(association_views(associations@)),
        decreases items@.len() - i,
    {
        assert(items@.take(i + 1).drop_last() =~= items@.take(i as int));
        assert(items@.take(i + 1).last() == items@[i as int]);
        let a = match SlurmAssociation::construct(&items[i]) {
            Ok(a) => a,
            Err(e) => {
                proof {
                    lemma_association_list_stops(items@, i + 1);
                }
                return Err(e);
            },
        };
        let ghost before = associations@;
        associations.push(a);
        assert(association_views(associations@) =~= association_views(before).push(a@));
        i = i + 1;
    }
    assert(items@.take(items@.len() as int) =~= items@);
    Ok(associations)
}

impl SlurmUser {
    /// The user that Slurm's JSON `value` describes.
    pub fn construct(value: &Json) -> (r: Result<Self, Error>)
        ensures
            match r {
                Ok(u) => user_fields(*value) == Ok::<_, Seq<char>>(u@),
                Err(e) => e is Call && user_fields(*value) == Err::<(Seq<char>, Option<Seq<char>>, Seq<(Seq<char>, Seq<char>, Seq<char>)>), _>(e.text()),
            },
    {
        let name = required_str(
            value,
            "name",
            "Could not get name from user",
            "Could not get name as string from user",
        )?;
        let default_account: Option<String> = match value.get("default") {
            None => None,
            Some(d) => match d.get("account") {
                None => return Err(call_error("Could not get default_account as string from user")),
                Some(a) => match a.as_str() {
                    Some(t) => Some(String::from_str(t)),
                    None => None,
                },
            },
        };
        let associations = match value.get("associations") {
            None => Vec::new(),
            Some(list) => match list.as_array() {
                None => return Err(call_error("Associations is not an array")),
                Some(items) => construct_associations(items)?,
            },
        };
        proof {
            if value.field("associations"@) is None {
                assert(association_views(associations@) =~= Seq::empty());
            }
        }
        Ok(SlurmUser { name: String::from_str(name), default_account, associations })
    }
}

impl SlurmUser {
    /// The user named `user` in Slurm's reply to a query for users; `None`
    /// where the reply lists no such user, or lists one that cannot be read.
    pub fn from_response(response: &Json, user: &str) -> (r: Option<SlurmUser>)
        ensures
            match named_entry(*response, "users"@, user@) {
                Some(u) => match user_fields(u) {
                    Ok(v) => r matches Some(x) && x@ == v,
                    Err(_) => r is None,
                },
                None => r is None,
            },
    {
        match find_named(response, "users", user) {
            Some(u) => match SlurmUser::construct(u) {
                Ok(x) => Some(x),
                Err(_) => None,
            },
            None => None,
        }
    }
}

/// The resources of one kind of Slurm node.
#[derive(Debug, Clone, Copy)]
pub struct SlurmNode {
    cpus: u64,
    gpus: u64,
    mem: u64,
    billing: u64,
}

impl View for SlurmNode {
    /// Cores, GPUs, memory and billing weight.
    type V = (u64, u64, u64, u64);

    closed spec fn view(&self) -> Self::V {
        (self.cpus, self.gpus, self.mem, self.billing)
    }
}

impl SlurmNode {
    pub fn new(cpus: u64, gpus: u64, mem: u64, billing: u64) -> (r: Self)
        ensures
            r@ == (cpus, gpus, mem, billing),
    {
        SlurmNode { cpus, gpus, mem, billing }
    }

    pub fn cpus(&self) -> (r: u64)
        ensures
            r == self@.0,
    {
        self.cpus
    }

    pub fn gpus(&self) -> (r: u64)
        ensures
            r == self@.1,
    {
        self.gpus
    }

    pub fn mem(&self) -> (r: u64)
        ensures
            r == self@.2,
    {
        self.mem
    }

    pub fn billing(&self) -> (r: u64)
        ensures
            r == self@.3,
    {
        self.billing
    }

    pub fn has_cpus(&self) -> (r: bool)
        ensures
            r == (self@.0 > 0),
    {
        self.cpus > 0
    }

    pub fn has_gpus(&self) -> (r: bool)
        ensures
            r == (self@.1 > 0),
    {
        self.gpus > 0
    }

    pub fn has_mem(&self) -> (r: bool)
        ensures
            r == (self@.2 > 0),
    {
        self.mem > 0
    }

    pub fn has_billing(&self) -> (r: bool)
        ensures
            r == (self@.3 > 0),
    {
        self.billing > 0
    }
}


/// One resource of a node description: its value, 0 where it is not given,
/// or `None` where it is given but is not a non-negative integer.
pub open spec fn node_count(value: Json, key: Seq<char>) -> Option<u64> {
    match value.field(key) {
        None => Some(0),
        Some(v) => v.unsigned(),
    }
}

/// The cores, GPUs, memory and billing weight of a node description; or
/// the message for the first resource that is not a non-negative integer.
pub open spec fn node_fields(value: Json) -> Result<(u64, u64, u64, u64), Seq<char>> {
    match (
        node_count(value, "cpus"@),
        node_count(value, "gpus"@),
        node_count(value, "mem"@),
        node_count(value, "billing"@),
    ) {
        (None, _, _, _) => Err("Could not get cpus as u64 from node"@),
        (Some(_), None, _, _) => Err("Could not get gpus as u64 from node"@),
        (Some(_), Some(_), None, _) => Err("Could not get mem as u64 from node"@),
        (Some(_), Some(_), Some(_), None) => Err("Could not get billing as u64 from node"@),
        (Some(c), Some(g), Some(m), Some(b)) => Ok((c, g, m, b)),
    }
}

/// The resource `key` of a node description; `wrong` where it is not a
/// non-negative integer.
fn node_resource(value: &Json, key: &str, wrong: &str) -> (r: Result<u64, Error>)
    ensures
        match r {
            Ok(n) => node_count(*value, key@) == Some(n),
            Err(e) => e is Call && e.text() == wrong@ && node_count(*value, key@) is None,
        },
{
    match value.get(key) {
        None => Ok(0),
        Some(v) => match v.as_u64() {
            Some(n) => Ok(n),
            None => Err(call_error(wrong)),
        },
    }
}

impl SlurmNode {
    /// The node type that the JSON `value` describes; a resource it does not
    /// give is 0.
    pub fn construct(value: &Json) -> (r: Result<Self, Error>)
        ensures
            match r {
                Ok(n) => node_fields(*value) == Ok::<_, Seq<char>>(n@),
                Err(e) => e is Call && node_fields(*value) == Err::<(u64, u64, u64, u64), _>(e.text()),
            },
    {
        let cpus = node_resource(value, "cpus", "Could not get cpus as u64 from node")?;
        let gpus = node_resource(value, "gpus", "Could not get gpus as u64 from node")?;
        let mem = node_resource(value, "mem", "Could not get mem as u64 from node")?;
        let billing = node_resource(value, "billing", "Could not get billing as u64 from node")?;
        Ok(SlurmNode::new(cpus, gpus, mem, billing))
    }
}

spec fn node_names(s: Seq<(String, SlurmNode)>) -> Seq<Seq<char>> {
    s.map_values(|e: (String, SlurmNode)| e.0@)
}

/// The node types of a cluster, by name, with a node type for every name
/// not listed.
#[derive(Debug)]
pub struct SlurmNodes {
    nodes: Vec<(String, SlurmNode)>,
    default: SlurmNode,
}

impl SlurmNodes {
    spec fn names(self) -> Seq<Seq<char>> {
        node_names(self.nodes@)
    }

    #[verifier::type_invariant]
    spec fn names_distinct(self) -> bool {
        self.names().no_duplicates()
    }

    /// The named node types.
    pub closed spec fn node_map(self) -> Map<Seq<char>, SlurmNode> {
        Map::new(
            |k: Seq<char>| self.names().contains(k),
            |k: Seq<char>| self.nodes@[first_index(self.names(), k)].1,
        )
    }

    /// The node type of every name not listed.
    pub closed spec fn default_node(self) -> SlurmNode {
        self.default
    }

    pub fn new(default: &SlurmNode) -> (r: Self)
        ensures
            r.node_map() == Map::<Seq<char>, SlurmNode>::empty(),
            r.default_node() == *default,
    {
        let r = SlurmNodes { nodes: Vec::new(), default: *default };
        assert(r.node_map() =~= Map::<Seq<char>, SlurmNode>::empty());
        r
    }

    pub fn set_default(&mut self, default: &SlurmNode)
        ensures
            final(self).node_map() == old(self).node_map(),
            final(self).default_node() == *default,
    {
        proof {
            use_type_invariant(&*self);
        }
        self.default = *default;
    }

    pub fn get_default(&self) -> (r: &SlurmNode)
        ensures
            *r == self.default_node(),
    {
        &self.default
    }

    /// The position of `name` in the list, if it is there.
    fn find(&self, name: &str) -> (r: Option<usize>)
        ensures
            r is None ==> !self.names().contains(name@),
            r matches Some(i) ==> i < self.nodes@.len() && self.names()[i as int] == name@ && i
                == first_index(self.names(), name@),
    {
        proof {
            use_type_invariant(self);
        }
        let mut i: usize = 0;
        while i < self.nodes.len()
            invariant
                i <= self.nodes@.len(),
                self.names().no_duplicates(),
                forall|j: int| 0 <= j < i ==> self.names()[j] != name@,
            decreases self.nodes.len() - i,
        {
            assert(self.names()[i as int] == self.nodes@[i as int].0@);
            if crate::text::str_eq(self.nodes[i].0.as_str(), name) {
                proof {
                    lemma_first_index(self.names(), name@);
                }
                return Some(i);
            }
            i = i + 1;
        }
        proof {
            lemma_first_index(self.names(), name@);
        }
        None
    }

    /// Name the node type `node`, replacing any node type of that name.
    pub fn set(&mut self, name: &str, node: &SlurmNode)
        ensures
            final(self).node_map() == old(self).node_map().insert(name@, *node),
            final(self).default_node() == old(self).default_node(),
    {
        proof {
            use_type_invariant(&*self);
        }
        let ghost before = self.names();
        let ghost old_map = self.node_map();
        let found = self.find(name);
        let mut nodes: Vec<(String, SlurmNode)> = Vec::new();
        std::mem::swap(&mut nodes, &mut self.nodes);
        match found {
            Some(i) => {
                let entry = (String::from_str(name), *node);
                nodes.set(i, entry);
                assert(node_names(nodes@) =~= before);
                self.nodes = nodes;
                proof {
                    assert(self.names() =~= before);
                    assert forall|k: Seq<char>| #[trigger] self.names().contains(k) implies self.nodes@[first_index(self.names(), k)].1 == old_map.insert(name@, *node)[k] by {
                        lemma_first_index(before, k);
                        if k != name@ {
                            assert(first_index(before, k) != i);
                        }
                    }
                    assert(self.node_map() =~= old_map.insert(name@, *node));
                }
            },
            None => {
                nodes.push((String::from_str(name), *node));
                assert(node_names(nodes@) =~= before.push(name@));
                assert(node_names(nodes@).no_duplicates()) by {
                    assert forall|a: int, b: int| 0 <= a < b < node_names(nodes@).len() implies node_names(nodes@)[a] != node_names(nodes@)[b] by {
                        if b == before.len() {
                            assert(before.contains(before[a]));
                        }
                    }
                }
                self.nodes = nodes;
                proof {
                    assert forall|k: Seq<char>| #[trigger] self.names().contains(k) implies self.nodes@[first_index(self.names(), k)].1 == old_map.insert(name@, *node)[k] by {
                        lemma_first_index(before, k);
                        lemma_first_index(self.names(), k);
                        if k != name@ {
                            let j = choose|j: int| 0 <= j < self.names().len() && self.names()[j] == k;
                            assert(j < before.len());
                            assert(before.contains(k));
                            assert(first_index(self.names(), k) == first_index(before, k));
                        } else {
                            assert(self.names()[before.len() as int] == name@);
                            assert(first_index(self.names(), k) == before.len());
                        }
                    }
                    assert forall|k: Seq<char>| self.names().contains(k) <==> #[trigger] old_map.insert(name@, *node).dom().contains(k) by {
                        assert(old_map.dom().contains(k) == before.contains(k));
                        if k == name@ {
                            assert(self.names()[before.len() as int] == name@);
                        }
                        if k != name@ && self.names().contains(k) {
                            let j = choose|j: int| 0 <= j < self.names().len() && self.names()[j] == k;
                            assert(before[j] == k);
                        }
                        if before.contains(k) {
                            let j = choose|j: int| 0 <= j < before.len() && before[j] == k;
                            assert(self.names()[j] == k);
                        }
                    }
                    assert(self.node_map() =~= old_map.insert(name@, *node));
                }
            },
        }
    }

    /// The node type of `name`, or the default if it has none.
    pub fn get(&self, name: &str) -> (r: &SlurmNode)
        ensures
            *r == (if self.node_map().contains_key(name@) {
                self.node_map()[name@]
            } else {
                self.default_node()
            }),
    {
        match self.find(name) {
            Some(i) => &self.nodes[i].1,
            None => &self.default,
        }
    }
}

/// One change to a set of node types: naming a node type, or replacing the
/// default.
pub enum NodeChange {
    Name(Seq<char>, SlurmNode),
    SetDefault(SlurmNode),
}

/// The named node types and the default after `changes`, made in order to
/// the named node types `map` with default `default`, as `set` and
/// `set_default` make them.
pub open spec fn nodes_after(
    map: Map<Seq<char>, SlurmNode>,
    default: SlurmNode,
    changes: Seq<NodeChange>,
) -> (Map<Seq<char>, SlurmNode>, SlurmNode)
    decreases changes.len(),
{
    if changes.len() == 0 {
        (map, default)
    } else {
        let before = nodes_after(map, default, changes.drop_last());
        match changes.last() {
            NodeChange::Name(name, node) => (before.0.insert(name, node), before.1),
            NodeChange::SetDefault(node) => (before.0, node),
        }
    }
}

/// What `get` gives for `name`: its node type, else the default.
pub open spec fn node_lookup(map: Map<Seq<char>, SlurmNode>, default: SlurmNode, name: Seq<char>) -> SlurmNode {
    if map.contains_key(name) {
        map[name]
    } else {
        default
    }
}

/// The node type last named `name` in `changes`, if there is one.
pub open spec fn last_set(changes: Seq<NodeChange>, name: Seq<char>) -> Option<SlurmNode>
    decreases changes.len(),
{
    if changes.len() == 0 {
        None
    } else {
        match changes.last() {
            NodeChange::Name(n, node) => if n == name {
                Some(node)
            } else {
                last_set(changes.drop_last(), name)
            },
            NodeChange::SetDefault(_) => last_set(changes.drop_last(), name),
        }
    }
}

/// The default last set in `changes`, or `default` if none was.
pub open spec fn last_default(changes: Seq<NodeChange>, default: SlurmNode) -> SlurmNode
    decreases changes.len(),
{
    if changes.len() == 0 {
        default
    } else {
        match changes.last() {
            NodeChange::Name(_, _) => last_default(changes.drop_last(), default),
            NodeChange::SetDefault(node) => node,
        }
    }
}

/// A set of node types made with default `default` and then changed by any
/// sequence of `set` and `set_default` gives, for `name`, the node type last
/// set under that name, and otherwise the default last set.
pub proof fn law_lookup_gives_the_last_node_set(
    default: SlurmNode,
    changes: Seq<NodeChange>,
    name: Seq<char>,
)
    ensures
        ({
            let after = nodes_after(Map::empty(), default, changes);
            &&& after.0.contains_key(name) <==> last_set(changes, name) is Some
            &&& after.1 == last_default(changes, default)
            &&& node_lookup(after.0, after.1, name) == match last_set(changes, name) {
                Some(node) => node,
                None => last_default(changes, default),
            }
        }),
    decreases changes.len(),
{
    if changes.len() > 0 {
        law_lookup_gives_the_last_node_set(default, changes.drop_last(), name);
    }
}


/// Which attempt of a job an accounting record describes.
#[derive(Debug, Clone, Copy, PartialEq, Eq, Structural)]
pub enum Attempt {
    /// The last attempt of the job within the query window.
    Base,
    /// An attempt superseded by a later one.
    Requeued,
}

/// What the totals of a daily report hold: node-seconds used, jobs counted,
/// their waits, the runtimes of finished jobs and how many had a positive
/// one, the same for superseded attempts with the number of requeue events,
/// and whether a job counted had not finished when read.
#[derive(Debug, Clone, Copy, PartialEq, Eq, Structural)]
pub struct Totals {
    pub usage: u64,
    pub num_jobs: u64,
    pub wait_seconds: u64,
    pub runtime_seconds: u64,
    pub expansion_jobs: u64,
    pub requeue_usage: u64,
    pub requeue_events: u64,
    pub requeue_wait_seconds: u64,
    pub saw_unfinished_job: bool,
}

/// Totals with nothing counted.
pub open spec fn no_totals() -> Totals {
    Totals {
        usage: 0,
        num_jobs: 0,
        wait_seconds: 0,
        runtime_seconds: 0,
        expansion_jobs: 0,
        requeue_usage: 0,
        requeue_events: 0,
        requeue_wait_seconds: 0,
        saw_unfinished_job: false,
    }
}

/// The totals accumulated alongside a daily usage report, kept so that what
/// the report says about itself can be checked against what was counted.
/// Only counting a record changes them.
#[derive(Debug, Clone, Copy)]
pub struct ReportTotals {
    usage: u64,
    num_jobs: u64,
    wait_seconds: u64,
    runtime_seconds: u64,
    expansion_jobs: u64,
    requeue_usage: u64,
    requeue_events: u64,
    requeue_wait_seconds: u64,
    /// Set when a record counted as a job had not finished when asked, so
    /// that the window must not be frozen.
    saw_unfinished_job: bool,
}

impl View for ReportTotals {
    type V = Totals;

    closed spec fn view(&self) -> Totals {
        Totals {
            usage: self.usage,
            num_jobs: self.num_jobs,
            wait_seconds: self.wait_seconds,
            runtime_seconds: self.runtime_seconds,
            expansion_jobs: self.expansion_jobs,
            requeue_usage: self.requeue_usage,
            requeue_events: self.requeue_events,
            requeue_wait_seconds: self.requeue_wait_seconds,
            saw_unfinished_job: self.saw_unfinished_job,
        }
    }
}

impl Default for ReportTotals {
    fn default() -> (r: Self)
        ensures
            r@ == no_totals(),
    {
        ReportTotals {
            usage: 0,
            num_jobs: 0,
            wait_seconds: 0,
            runtime_seconds: 0,
            expansion_jobs: 0,
            requeue_usage: 0,
            requeue_events: 0,
            requeue_wait_seconds: 0,
            saw_unfinished_job: false,
        }
    }
}

impl ReportTotals {
    /// True if a job counted in this window had not finished when asked.
    pub fn saw_unfinished_job(&self) -> (r: bool)
        ensures
            r == self@.saw_unfinished_job,
    {
        self.saw_unfinished_job
    }

    /// Node-seconds of the records that were not superseded.
    pub fn usage(&self) -> (r: u64)
        ensures
            r == self@.usage,
    {
        self.usage
    }

    /// Jobs counted in the window they started in.
    pub fn num_jobs(&self) -> (r: u64)
        ensures
            r == self@.num_jobs,
    {
        self.num_jobs
    }

    /// The seconds the counted jobs waited.
    pub fn wait_seconds(&self) -> (r: u64)
        ensures
            r == self@.wait_seconds,
    {
        self.wait_seconds
    }

    /// The runtimes of the counted jobs that had finished.
    pub fn runtime_seconds(&self) -> (r: u64)
        ensures
            r == self@.runtime_seconds,
    {
        self.runtime_seconds
    }

    /// The finished jobs with a positive runtime.
    pub fn expansion_jobs(&self) -> (r: u64)
        ensures
            r == self@.expansion_jobs,
    {
        self.expansion_jobs
    }

    /// Node-seconds of superseded attempts.
    pub fn requeue_usage(&self) -> (r: u64)
        ensures
            r == self@.requeue_usage,
    {
        self.requeue_usage
    }

    /// Superseded attempts counted.
    pub fn requeue_events(&self) -> (r: u64)
        ensures
            r == self@.requeue_events,
    {
        self.requeue_events
    }

    /// The seconds the superseded attempts waited.
    pub fn requeue_wait_seconds(&self) -> (r: u64)
        ensures
            r == self@.requeue_wait_seconds,
    {
        self.requeue_wait_seconds
    }
}

/// The seconds an attempt waited after it became eligible; never negative.
pub open spec fn wait_seconds_of(job: SlurmJob) -> u64 {
    if job.original_start_time - job.eligible_time < 0 {
        0
    } else {
        (job.original_start_time - job.eligible_time) as u64
    }
}

/// The totals once the record `job` has been counted for the window that
/// starts at `window_start`, the record having used `usage` node-seconds.
/// A superseded attempt adds to the requeue figures, and counts as an event
/// in the one window that sees it superseded. Any other record adds its
/// usage; it counts as a job, with its wait, only in the window it started
/// in, so that a record spanning several windows is one job; and only one
/// that has `ended` gives a final runtime (a positive one an expansion
/// factor), while one still running marks the window unfinished. Every sum
/// saturates.
pub open spec fn counted(t: Totals, job: SlurmJob, window_start: i64, usage: u64, ended: bool) -> Totals {
    let wait = wait_seconds_of(job);
    if job.attempt == Attempt::Requeued {
        Totals {
            requeue_usage: t.requeue_usage.saturating_add(usage),
            requeue_events: t.requeue_events.saturating_add(1),
            requeue_wait_seconds: t.requeue_wait_seconds.saturating_add(wait),
            ..t
        }
    } else if job.original_start_time >= window_start {
        let jobs = Totals {
            usage: t.usage.saturating_add(usage),
            num_jobs: t.num_jobs.saturating_add(1),
            wait_seconds: t.wait_seconds.saturating_add(wait),
            ..t
        };
        if ended {
            Totals {
                runtime_seconds: t.runtime_seconds.saturating_add(job.duration),
                expansion_jobs: if job.duration > 0 {
                    t.expansion_jobs.saturating_add(1)
                } else {
                    t.expansion_jobs
                },
                ..jobs
            }
        } else {
            Totals { saw_unfinished_job: true, ..jobs }
        }
    } else {
        Totals { usage: t.usage.saturating_add(usage), ..t }
    }
}

impl ReportTotals {
    /// Count the record `job` for the window that starts at `window_start`;
    /// see `counted`.
    pub fn count_record(&mut self, job: &SlurmJob, window_start: i64, usage: u64, ended: bool)
        requires
            i64::MIN <= job.original_start_time - job.eligible_time <= i64::MAX,
            job.duration <= 9223372036854775,
        ensures
            final(self)@ == counted(old(self)@, *job, window_start, usage, ended),
    {
        let wait = job.wait_time() as u64;
        if job.is_requeued_attempt() {
            self.requeue_usage = self.requeue_usage.saturating_add(usage);
            self.requeue_events = self.requeue_events.saturating_add(1);
            self.requeue_wait_seconds = self.requeue_wait_seconds.saturating_add(wait);
            return;
        }
        self.usage = self.usage.saturating_add(usage);
        if job.original_start_time() >= window_start {
            self.num_jobs = self.num_jobs.saturating_add(1);
            self.wait_seconds = self.wait_seconds.saturating_add(wait);
            if ended {
                let runtime = job.total_duration();
                self.runtime_seconds = self.runtime_seconds.saturating_add(runtime);
                if runtime > 0 {
                    self.expansion_jobs = self.expansion_jobs.saturating_add(1);
                }
            } else {
                self.saw_unfinished_job = true;
            }
        }
    }
}
/// Counting a record adds to the totals what the record used: a record that
/// is not superseded adds its usage, and where it started in the window one
/// job with its wait, and then either (once it has ended) its runtime, as an
/// expansion job if that is positive, or the mark that the window is
/// unfinished; a superseded attempt adds its usage, wait and one event to
/// the requeue figures and leaves the rest. Every sum saturates, and a
/// window once marked unfinished stays so.
pub proof fn law_totals_grow_by_what_the_record_used(t: Totals, job: SlurmJob, window_start: i64, usage: u64, ended: bool)
    ensures
        ({
            let r = counted(t, job, window_start, usage, ended);
            let wait = if job.original_start_time < job.eligible_time {
                0
            } else {
                job.original_start_time - job.eligible_time
            };
            &&& t.saw_unfinished_job ==> r.saw_unfinished_job
            &&& job.attempt != Attempt::Requeued ==> {
                &&& r.usage == t.usage.saturating_add(usage)
                &&& r.requeue_usage == t.requeue_usage && r.requeue_events == t.requeue_events
                &&& job.original_start_time >= window_start ==> {
                    &&& r.num_jobs == t.num_jobs.saturating_add(1)
                    &&& r.wait_seconds == t.wait_seconds.saturating_add(wait as u64)
                    &&& ended ==> r.runtime_seconds == t.runtime_seconds.saturating_add(job.duration)
                        && r.expansion_jobs == (if job.duration > 0 {
                        t.expansion_jobs.saturating_add(1)
                    } else {
                        t.expansion_jobs
                    }) && r.saw_unfinished_job == t.saw_unfinished_job
                    &&& !ended ==> r.saw_unfinished_job && r.runtime_seconds == t.runtime_seconds
                }
                &&& job.original_start_time < window_start ==> r.num_jobs == t.num_jobs && r.wait_seconds
                    == t.wait_seconds && r.runtime_seconds == t.runtime_seconds && r.saw_unfinished_job
                    == t.saw_unfinished_job
            }
            &&& job.attempt == Attempt::Requeued ==> {
                &&& r.requeue_usage == t.requeue_usage.saturating_add(usage)
                &&& r.requeue_events == t.requeue_events.saturating_add(1)
                &&& r.requeue_wait_seconds == t.requeue_wait_seconds.saturating_add(wait as u64)
                &&& r.usage == t.usage && r.num_jobs == t.num_jobs && r.wait_seconds == t.wait_seconds
                &&& r.runtime_seconds == t.runtime_seconds && r.saw_unfinished_job == t.saw_unfinished_job
            }
        }),
{
}


/// What a daily report holds for one user, in whole units: jobs counted and
/// the seconds they waited; core-, memory-, GPU- and billing-seconds used;
/// the waits and runtimes of the finished jobs an expansion factor is taken
/// from; the cores and GPUs of the jobs counted; and the same for superseded
/// attempts, with the number of requeue events.
#[derive(Debug, Clone, Copy, PartialEq, Eq, Structural)]
pub struct UserCounts {
    pub jobs: u64,
    pub wait_seconds: u64,
    pub cpu_seconds: u64,
    pub memory_seconds: u64,
    pub gpu_seconds: u64,
    pub billing_seconds: u64,
    pub expansion_jobs: u64,
    pub expansion_wait_seconds: u64,
    pub expansion_runtime_seconds: u64,
    pub sized_jobs: u64,
    pub size_cpus: u64,
    pub size_gpus: u64,
    pub requeue_events: u64,
    pub requeue_wait_seconds: u64,
    pub requeue_cpu_seconds: u64,
    pub requeue_memory_seconds: u64,
    pub requeue_gpu_seconds: u64,
    pub requeue_billing_seconds: u64,
}

/// Counts with nothing counted yet.
pub open spec fn no_counts() -> UserCounts {
    UserCounts {
        jobs: 0,
        wait_seconds: 0,
        cpu_seconds: 0,
        memory_seconds: 0,
        gpu_seconds: 0,
        billing_seconds: 0,
        expansion_jobs: 0,
        expansion_wait_seconds: 0,
        expansion_runtime_seconds: 0,
        sized_jobs: 0,
        size_cpus: 0,
        size_gpus: 0,
        requeue_events: 0,
        requeue_wait_seconds: 0,
        requeue_cpu_seconds: 0,
        requeue_memory_seconds: 0,
        requeue_gpu_seconds: 0,
        requeue_billing_seconds: 0,
    }
}

/// Whether the resource-seconds of `job` fit in a `u64`, as its component
/// figures need.
pub open spec fn components_fit(job: SlurmJob) -> bool {
    &&& i64::MIN <= job.end_time - job.start_time <= i64::MAX
    &&& i64::MIN <= job.original_start_time - job.eligible_time <= i64::MAX
    &&& job.cpus * wrapped_u64(job.duration_spec()) <= u64::MAX
    &&& job.memory * wrapped_u64(job.duration_spec()) <= u64::MAX
    &&& job.gpus * wrapped_u64(job.duration_spec()) <= u64::MAX
    &&& job.billing * wrapped_u64(job.duration_spec()) <= u64::MAX
}

/// The counts of a user once the record `job` has been counted for the
/// window that starts at `window_start`. A superseded attempt adds to the
/// requeue figures and is one requeue event. Any other record adds its
/// resource-seconds; it counts as a job, with its wait and its cores and
/// GPUs, only in the window it started in, and gives an expansion figure
/// only once it has `ended`. Every sum saturates.
pub open spec fn counts_added(c: UserCounts, job: SlurmJob, window_start: i64, ended: bool) -> UserCounts {
    let wait = wait_seconds_of(job);
    let d = job.duration_spec();
    let cpu = usage_seconds(job.cpus, d) as u64;
    let memory = usage_seconds(job.memory, d) as u64;
    let gpu = usage_seconds(job.gpus, d) as u64;
    let billing = usage_seconds(job.billing, d) as u64;
    if job.attempt == Attempt::Requeued {
        UserCounts {
            requeue_events: c.requeue_events.saturating_add(1),
            requeue_wait_seconds: c.requeue_wait_seconds.saturating_add(wait),
            requeue_cpu_seconds: c.requeue_cpu_seconds.saturating_add(cpu),
            requeue_memory_seconds: c.requeue_memory_seconds.saturating_add(memory),
            requeue_gpu_seconds: c.requeue_gpu_seconds.saturating_add(gpu),
            requeue_billing_seconds: c.requeue_billing_seconds.saturating_add(billing),
            ..c
        }
    } else {
        let used = UserCounts {
            cpu_seconds: c.cpu_seconds.saturating_add(cpu),
            memory_seconds: c.memory_seconds.saturating_add(memory),
            gpu_seconds: c.gpu_seconds.saturating_add(gpu),
            billing_seconds: c.billing_seconds.saturating_add(billing),
            ..c
        };
        if job.original_start_time >= window_start {
            let started = UserCounts {
                jobs: used.jobs.saturating_add(1),
                wait_seconds: used.wait_seconds.saturating_add(wait),
                sized_jobs: used.sized_jobs.saturating_add(1),
                size_cpus: used.size_cpus.saturating_add(job.cpus),
                size_gpus: used.size_gpus.saturating_add(job.gpus),
                ..used
            };
            if ended {
                UserCounts {
                    expansion_jobs: started.expansion_jobs.saturating_add(1),
                    expansion_wait_seconds: started.expansion_wait_seconds.saturating_add(wait),
                    expansion_runtime_seconds: started.expansion_runtime_seconds.saturating_add(
                        job.duration,
                    ),
                    ..started
                }
            } else {
                started
            }
        } else {
            used
        }
    }
}
proof fn lemma_usage_is_the_product(amount: u64, d: int)
    requires
        d >= 0,
    ensures
        usage_seconds(amount, d) == amount * d,
{
    assert(wrapped_u64(d) == d);
    if amount > 0 && d > 0 {
        assert(amount * d > 0) by (nonlinear_arith)
            requires
                amount > 0,
                d > 0,
        ;
    }
}

/// Counting a record adds to its user what the record used: for a record
/// that is not superseded, its cores, memory, GPUs and billing weight times
/// the seconds it ran to the user's core-, memory-, GPU- and billing-seconds,
/// and, where it started in the window, one job with its wait and its cores
/// and GPUs (and, once it has ended, its wait and runtime to the expansion
/// figures); for a superseded attempt the same seconds and its wait go to the
/// requeue figures, with one requeue event, and nothing else changes. Every
/// sum saturates.
pub proof fn law_user_counts_grow_by_what_the_record_used(c: UserCounts, job: SlurmJob, window_start: i64, ended: bool)
    requires
        job.duration_spec() >= 0,
    ensures
        ({
            let r = counts_added(c, job, window_start, ended);
            let d = job.duration_spec();
            let wait = if job.original_start_time < job.eligible_time {
                0
            } else {
                job.original_start_time - job.eligible_time
            };
            &&& job.attempt != Attempt::Requeued ==> {
                &&& r.cpu_seconds == c.cpu_seconds.saturating_add((job.cpus * d) as u64)
                &&& r.memory_seconds == c.memory_seconds.saturating_add((job.memory * d) as u64)
                &&& r.gpu_seconds == c.gpu_seconds.saturating_add((job.gpus * d) as u64)
                &&& r.billing_seconds == c.billing_seconds.saturating_add((job.billing * d) as u64)
                &&& r.requeue_events == c.requeue_events
                &&& r.requeue_cpu_seconds == c.requeue_cpu_seconds
                &&& r.requeue_gpu_seconds == c.requeue_gpu_seconds
                &&& job.original_start_time >= window_start ==> {
                    &&& r.jobs == c.jobs.saturating_add(1)
                    &&& r.wait_seconds == c.wait_seconds.saturating_add(wait as u64)
                    &&& r.sized_jobs == c.sized_jobs.saturating_add(1)
                    &&& r.size_cpus == c.size_cpus.saturating_add(job.cpus)
                    &&& r.size_gpus == c.size_gpus.saturating_add(job.gpus)
                    &&& ended ==> r.expansion_jobs == c.expansion_jobs.saturating_add(1)
                        && r.expansion_wait_seconds == c.expansion_wait_seconds.saturating_add(wait as u64)
                        && r.expansion_runtime_seconds == c.expansion_runtime_seconds.saturating_add(job.duration)
                    &&& !ended ==> r.expansion_jobs == c.expansion_jobs && r.expansion_runtime_seconds
                        == c.expansion_runtime_seconds
                }
                &&& job.original_start_time < window_start ==> r.jobs == c.jobs && r.wait_seconds
                    == c.wait_seconds && r.sized_jobs == c.sized_jobs
            }
            &&& job.attempt == Attempt::Requeued ==> {
                &&& r.requeue_cpu_seconds == c.requeue_cpu_seconds.saturating_add((job.cpus * d) as u64)
                &&& r.requeue_memory_seconds == c.requeue_memory_seconds.saturating_add((job.memory * d) as u64)
                &&& r.requeue_gpu_seconds == c.requeue_gpu_seconds.saturating_add((job.gpus * d) as u64)
                &&& r.requeue_billing_seconds == c.requeue_billing_seconds.saturating_add((job.billing * d) as u64)
                &&& r.requeue_events == c.requeue_events.saturating_add(1)
                &&& r.requeue_wait_seconds == c.requeue_wait_seconds.saturating_add(wait as u64)
                &&& r.cpu_seconds == c.cpu_seconds && r.gpu_seconds == c.gpu_seconds
                &&& r.memory_seconds == c.memory_seconds && r.billing_seconds == c.billing_seconds
                &&& r.jobs == c.jobs && r.wait_seconds == c.wait_seconds
            }
        }),
{
    let d = job.duration_spec();
    lemma_usage_is_the_product(job.cpus, d);
    lemma_usage_is_the_product(job.memory, d);
    lemma_usage_is_the_product(job.gpus, d);
    lemma_usage_is_the_product(job.billing, d);
}


/// The per-user counts as user names and counts.
pub open spec fn tally_views(t: Seq<(String, UserCounts)>) -> Seq<(Seq<char>, UserCounts)> {
    t.map_values(|e: (String, UserCounts)| (e.0@, e.1))
}

/// The per-user counts `t` once `job` has been counted: the entry of its user
/// is updated, or one is added for a user not yet listed.
pub open spec fn tallied(t: Seq<(Seq<char>, UserCounts)>, job: SlurmJob, window_start: i64, ended: bool) -> Seq<(Seq<char>, UserCounts)> {
    let i = first_index(keys(t), job.user@);
    if i >= 0 {
        t.update(i, (job.user@, counts_added(t[i].1, job, window_start, ended)))
    } else {
        t.push((job.user@, counts_added(no_counts(), job, window_start, ended)))
    }
}
/// Counting a record changes the counts of its own user alone: that user's
/// counts become those before (or none, for a user not yet listed) with the
/// record added, and every other user's stay as they were.
pub proof fn law_a_record_is_counted_for_its_own_user(
    t: Seq<(Seq<char>, UserCounts)>,
    job: SlurmJob,
    window_start: i64,
    ended: bool,
    other: Seq<char>,
)
    requires
        other != job.user@,
    ensures
        lookup(tallied(t, job, window_start, ended), job.user@) == Some(counts_added(
            match lookup(t, job.user@) {
                Some(c) => c,
                None => no_counts(),
            },
            job,
            window_start,
            ended,
        )),
        lookup(tallied(t, job, window_start, ended), other) == lookup(t, other),
{
    let u = job.user@;
    let ks = keys(t);
    let r = tallied(t, job, window_start, ended);
    lemma_first_index(ks, u);
    lemma_first_index(ks, other);
    let i = first_index(ks, u);
    if i >= 0 {
        assert(keys(r) =~= ks);
    } else {
        assert(keys(r) =~= ks.push(u));
        assert forall|k: int| 0 <= k < ks.len() implies keys(r)[k] != u by {
            assert(keys(r)[k] == ks[k]);
        }
        assert forall|k: int| 0 <= k < ks.len() implies keys(r)[k] == ks[k] by {}
    }
    lemma_first_index(keys(r), u);
    lemma_first_index(keys(r), other);
    let j = first_index(ks, other);
    if j >= 0 {
        assert(keys(r)[j] == other);
        assert(r[j] == t[j]);
        assert forall|k: int| 0 <= k < j implies keys(r)[k] != other by {
            assert(keys(r)[k] == ks[k]);
        }
    } else {
        assert(!keys(r).contains(other)) by {
            if keys(r).contains(other) {
                let k = choose|k: int| 0 <= k < keys(r).len() && keys(r)[k] == other;
                if k < ks.len() {
                    assert(keys(r)[k] == ks[k]);
                }
            }
        }
    }
}


fn add_counts(c: UserCounts, job: &SlurmJob, window_start: i64, ended: bool) -> (r: UserCounts)
    requires
        components_fit(*job),
    ensures
        r == counts_added(c, *job, window_start, ended),
{
    let wait = job.wait_time() as u64;
    let cpu = job.cpu_seconds();
    let memory = job.memory_seconds();
    let gpu = job.gpu_seconds();
    let billing = job.billing_seconds();
    if job.is_requeued_attempt() {
        return UserCounts {
            requeue_events: c.requeue_events.saturating_add(1),
            requeue_wait_seconds: c.requeue_wait_seconds.saturating_add(wait),
            requeue_cpu_seconds: c.requeue_cpu_seconds.saturating_add(cpu),
            requeue_memory_seconds: c.requeue_memory_seconds.saturating_add(memory),
            requeue_gpu_seconds: c.requeue_gpu_seconds.saturating_add(gpu),
            requeue_billing_seconds: c.requeue_billing_seconds.saturating_add(billing),
            ..c
        };
    }
    let mut r = UserCounts {
        cpu_seconds: c.cpu_seconds.saturating_add(cpu),
        memory_seconds: c.memory_seconds.saturating_add(memory),
        gpu_seconds: c.gpu_seconds.saturating_add(gpu),
        billing_seconds: c.billing_seconds.saturating_add(billing),
        ..c
    };
    if job.original_start_time() >= window_start {
        r.jobs = r.jobs.saturating_add(1);
        r.wait_seconds = r.wait_seconds.saturating_add(wait);
        r.sized_jobs = r.sized_jobs.saturating_add(1);
        r.size_cpus = r.size_cpus.saturating_add(job.cpus);
        r.size_gpus = r.size_gpus.saturating_add(job.gpus);
        if ended {
            r.expansion_jobs = r.expansion_jobs.saturating_add(1);
            r.expansion_wait_seconds = r.expansion_wait_seconds.saturating_add(wait);
            r.expansion_runtime_seconds = r.expansion_runtime_seconds.saturating_add(job.total_duration());
        }
    }
    r
}

/// Count the record `job` for its user, in the window that starts at
/// `window_start`; see `tallied`. Users listed once stay listed once.
pub fn count_user_record(tally: &mut Vec<(String, UserCounts)>, job: &SlurmJob, window_start: i64, ended: bool)
    requires
        components_fit(*job),
    ensures
        tally_views(final(tally)@) == tallied(tally_views(old(tally)@), *job, window_start, ended),
        keys(tally_views(old(tally)@)).no_duplicates() ==> keys(tally_views(final(tally)@)).no_duplicates(),
{
    let ghost t = tally_views(tally@);
    let ghost ks = keys(t);
    proof {
        lemma_first_index(ks, job.user@);
    }
    let mut i: usize = 0;
    let mut found: Option<usize> = None;
    while i < tally.len()
        invariant_except_break
            found is None,
        invariant
            i <= tally@.len(),
            t == tally_views(tally@),
            ks == keys(t),
            forall|k: int| 0 <= k < i ==> ks[k] != job.user@,
        ensures
            found matches Some(j) ==> j < tally@.len() && ks[j as int] == job.user@ && forall|k: int|
                0 <= k < j ==> ks[k] != job.user@,
            found is None ==> forall|k: int| 0 <= k < tally@.len() ==> ks[k] != job.user@,
        decreases tally@.len() - i,
    {
        assert(ks[i as int] == tally@[i as int].0@);
        if crate::text::str_eq(tally[i].0.as_str(), job.user()) {
            found = Some(i);
            break;
        }
        i = i + 1;
    }
    let name = String::from_str(job.user());
    match found {
        Some(j) => {
            assert(first_index(ks, job.user@) == j as int);
            let c = add_counts(tally[j].1, job, window_start, ended);
            tally.set(j, (name, c));
            assert(tally_views(tally@) =~= t.update(j as int, (job.user@, c)));
            assert(keys(tally_views(tally@)) =~= ks);
        },
        None => {
            assert(!ks.contains(job.user@));
            let c = add_counts(no_counts_value(), job, window_start, ended);
            tally.push((name, c));
            assert(tally_views(tally@) =~= t.push((job.user@, c)));
            assert(keys(tally_views(tally@)) =~= ks.push(job.user@));
        },
    }
}

fn no_counts_value() -> (r: UserCounts)
    ensures
        r == no_counts(),
{
    UserCounts {
        jobs: 0,
        wait_seconds: 0,
        cpu_seconds: 0,
        memory_seconds: 0,
        gpu_seconds: 0,
        billing_seconds: 0,
        expansion_jobs: 0,
        expansion_wait_seconds: 0,
        expansion_runtime_seconds: 0,
        sized_jobs: 0,
        size_cpus: 0,
        size_gpus: 0,
        requeue_events: 0,
        requeue_wait_seconds: 0,
        requeue_cpu_seconds: 0,
        requeue_memory_seconds: 0,
        requeue_gpu_seconds: 0,
        requeue_billing_seconds: 0,
    }
}
/// Requeued node-seconds and requeue events filed under one terminal state.
#[derive(Debug, Clone, Copy, PartialEq, Eq, Structural)]
pub struct StateCounts {
    pub usage: u64,
    pub events: u64,
}

/// The per-state requeue figures as state names and counts.
pub open spec fn state_views(t: Seq<(String, StateCounts)>) -> Seq<(Seq<char>, StateCounts)> {
    t.map_values(|e: (String, StateCounts)| (e.0@, e.1))
}

/// The per-state requeue figures `t` once the record `job`, which used
/// `usage` node-seconds, has been counted: a superseded attempt adds its
/// usage and one event under the state it ended in, whichever window it
/// started in; any other record leaves them as they are. Sums saturate.
pub open spec fn state_tallied(t: Seq<(Seq<char>, StateCounts)>, job: SlurmJob, usage: u64) -> Seq<(Seq<char>, StateCounts)> {
    if job.attempt != Attempt::Requeued {
        t
    } else {
        let state = terminal_bucket(job.states@);
        let i = first_index(keys(t), state);
        let c = if i >= 0 {
            t[i].1
        } else {
            StateCounts { usage: 0, events: 0 }
        };
        let added = StateCounts { usage: c.usage.saturating_add(usage), events: c.events.saturating_add(1) };
        if i >= 0 {
            t.update(i, (state, added))
        } else {
            t.push((state, added))
        }
    }
}

/// File a superseded attempt's usage and event under the state it ended
/// in; see `state_tallied`. States listed once stay listed once.
pub fn count_requeue_by_state(states: &mut Vec<(String, StateCounts)>, job: &SlurmJob, usage: u64)
    ensures
        state_views(final(states)@) == state_tallied(state_views(old(states)@), *job, usage),
        keys(state_views(old(states)@)).no_duplicates() ==> keys(state_views(final(states)@)).no_duplicates(),
{
    if !job.is_requeued_attempt() {
        return;
    }
    let state = job.terminal_state();
    let ghost t = state_views(states@);
    let ghost ks = keys(t);
    proof {
        lemma_first_index(ks, state@);
    }
    let mut i: usize = 0;
    let mut found: Option<usize> = None;
    while i < states.len()
        invariant_except_break
            found is None,
        invariant
            i <= states@.len(),
            t == state_views(states@),
            ks == keys(t),
            forall|k: int| 0 <= k < i ==> ks[k] != state@,
        ensures
            found matches Some(j) ==> j < states@.len() && ks[j as int] == state@ && forall|k: int|
                0 <= k < j ==> ks[k] != state@,
            found is None ==> forall|k: int| 0 <= k < states@.len() ==> ks[k] != state@,
        decreases states@.len() - i,
    {
        assert(ks[i as int] == states@[i as int].0@);
        if crate::text::str_eq(states[i].0.as_str(), state) {
            found = Some(i);
            break;
        }
        i = i + 1;
    }
    match found {
        Some(j) => {
            assert(first_index(ks, state@) == j as int);
            let c = states[j].1;
            let added = StateCounts { usage: c.usage.saturating_add(usage), events: c.events.saturating_add(1) };
            states.set(j, (String::from_str(state), added));
            assert(state_views(states@) =~= t.update(j as int, (state@, added)));
            assert(keys(state_views(states@)) =~= ks);
        },
        None => {
            assert(!ks.contains(state@));
            let added = StateCounts { usage: 0u64.saturating_add(usage), events: 1 };
            states.push((String::from_str(state), added));
            assert(state_views(states@) =~= t.push((state@, added)));
            assert(keys(state_views(states@)) =~= ks.push(state@));
        },
    }
}

/// A superseded attempt is counted on the day it is seen superseded,
/// whichever window it started in: its usage and one event go to the requeue
/// figures, in the totals and under the state it ended in, and the base
/// usage and job count are left as they were.
pub proof fn law_a_requeue_is_counted_where_it_is_seen(
    t: Totals,
    states: Seq<(Seq<char>, StateCounts)>,
    job: SlurmJob,
    window_start: i64,
    usage: u64,
    ended: bool,
)
    requires
        job.attempt == Attempt::Requeued,
    ensures
        counted(t, job, window_start, usage, ended).requeue_usage == t.requeue_usage.saturating_add(usage),
        counted(t, job, window_start, usage, ended).requeue_events == t.requeue_events.saturating_add(1),
        counted(t, job, window_start, usage, ended).usage == t.usage,
        counted(t, job, window_start, usage, ended).num_jobs == t.num_jobs,
        ({
            let state = terminal_bucket(job.states@);
            let before = lookup(states, state);
            let after = lookup(state_tallied(states, job, usage), state);
            &&& after is Some
            &&& after.unwrap().usage == (match before {
                Some(c) => c.usage,
                None => 0u64,
            }).saturating_add(usage)
            &&& after.unwrap().events == (match before {
                Some(c) => c.events,
                None => 0u64,
            }).saturating_add(1)
        }),
{
    let state = terminal_bucket(job.states@);
    let ks = keys(states);
    lemma_first_index(ks, state);
    let r = state_tallied(states, job, usage);
    let i = first_index(ks, state);
    if i >= 0 {
        assert(keys(r) =~= ks);
    } else {
        assert(keys(r) =~= ks.push(state));
        assert(keys(r)[ks.len() as int] == state);
        lemma_first_index(keys(r), state);
        assert forall|k: int| 0 <= k < ks.len() implies keys(r)[k] != state by {
            assert(keys(r)[k] == ks[k]);
        }
    }
    lemma_first_index(keys(r), state);
}


/// The totals once each of `records` (a job, the node-seconds it used, and
/// whether it had ended) has been counted in turn for the window that starts
/// at `window_start`.
pub open spec fn counted_all(t: Totals, records: Seq<(SlurmJob, u64, bool)>, window_start: i64) -> Totals
    decreases records.len(),
{
    if records.len() == 0 {
        t
    } else {
        let r = records.last();
        counted(counted_all(t, records.drop_last(), window_start), r.0, window_start, r.1, r.2)
    }
}

/// Whether `record` is a job, not a superseded attempt, that started in the
/// window and had not ended when read.
pub open spec fn unfinished_in_window(record: (SlurmJob, u64, bool), window_start: i64) -> bool {
    &&& record.0.attempt != Attempt::Requeued
    &&& record.0.original_start_time >= window_start
    &&& !record.2
}

/// Once a window has seen a job that had not finished it stays marked
/// unfinished, whatever is counted after; counting from totals not so marked
/// marks it exactly when one of the records is a job that started in the
/// window and had not ended.
pub proof fn law_an_unfinished_job_keeps_the_window_open(
    t: Totals,
    records: Seq<(SlurmJob, u64, bool)>,
    window_start: i64,
)
    ensures
        counted_all(t, records, window_start).saw_unfinished_job <==> (t.saw_unfinished_job
            || exists|i: int|
            0 <= i < records.len() && unfinished_in_window(#[trigger] records[i], window_start)),
    decreases records.len(),
{
    if records.len() > 0 {
        let front = records.drop_last();
        law_an_unfinished_job_keeps_the_window_open(t, front, window_start);
        if exists|i: int| 0 <= i < front.len() && unfinished_in_window(#[trigger] front[i], window_start) {
            let i = choose|i: int| 0 <= i < front.len() && unfinished_in_window(#[trigger] front[i], window_start);
            assert(records[i] == front[i]);
        }
        if exists|i: int| 0 <= i < records.len() && unfinished_in_window(#[trigger] records[i], window_start) {
            let i = choose|i: int| 0 <= i < records.len() && unfinished_in_window(#[trigger] records[i], window_start);
            if i < front.len() {
                assert(records[i] == front[i]);
            }
        }
    }
}


/// A record that spans consecutive windows counts as a job once: in the
/// window it started in, and not in a later one; its usage is counted in
/// each.
pub proof fn law_a_record_is_one_job_across_windows(
    first: Totals,
    later: Totals,
    job: SlurmJob,
    start: i64,
    next_start: i64,
    usage: u64,
    next_usage: u64,
    ended: bool,
)
    requires
        job.attempt == Attempt::Base,
        start <= job.original_start_time < next_start,
    ensures
        counted(first, job, start, usage, ended).num_jobs == first.num_jobs.saturating_add(1),
        counted(later, job, next_start, next_usage, ended).num_jobs == later.num_jobs,
        counted(first, job, start, usage, ended).usage == first.usage.saturating_add(usage),
        counted(later, job, next_start, next_usage, ended).usage == later.usage.saturating_add(next_usage),
{
}

/// One slurmrestd server and what is known of the session with it. Whether a
/// token is held stands for the token itself, which the caller keeps secret.
#[derive(Debug)]
pub struct SlurmServer {
    pub server: String,
    pub token_command: String,
    pub token_lifespan: u32,
    pub user: String,
    pub has_token: bool,
    pub token_creation_time: u64,
    pub version: String,
    pub num_failed_reconnects: u32,
    /// When the last login failed, in nanoseconds since the UNIX epoch.
    pub last_failed_reconnect: Option<i64>,
}

/// The margin of error, in seconds, allowed before a token's expiry.
pub const TOKEN_EXPIRY_MARGIN: u64 = 10;

/// The number of failed logins tolerated before backing off.
pub const BACKOFF_AFTER_FAILURES: u32 = 3;

/// The back-off after each failed login, in seconds.
pub const BACKOFF_SECONDS_PER_FAILURE: i128 = 20;

impl SlurmServer {
    /// A server not yet logged in to.
    pub fn new(server: &str, user: &str, token_command: &str, token_lifespan: u32) -> (r: Self)
        ensures
            r.server@ == server@,
            r.user@ == user@,
            r.token_command@ == token_command@,
            r.token_lifespan == token_lifespan,
            !r.has_token,
            r.token_creation_time == 0,
            r.version@ == Seq::<char>::empty(),
            r.num_failed_reconnects == 0,
            r.last_failed_reconnect is None,
    {
        SlurmServer {
            server: String::from_str(server),
            token_command: String::from_str(token_command),
            token_lifespan,
            user: String::from_str(user),
            has_token: false,
            token_creation_time: 0,
            version: String::new(),
            num_failed_reconnects: 0,
            last_failed_reconnect: None,
        }
    }

    /// Whether the token has expired at `now` (seconds since the UNIX epoch),
    /// allowing a margin of ten seconds; no token counts as expired.
    pub fn token_expired(&self, now: u64) -> (r: bool)
        requires
            self.has_token ==> now + TOKEN_EXPIRY_MARGIN <= u64::MAX,
            self.has_token ==> self.token_creation_time <= now + TOKEN_EXPIRY_MARGIN,
        ensures
            r == (!self.has_token || now + TOKEN_EXPIRY_MARGIN - self.token_creation_time
                > self.token_lifespan),
    {
        if !self.has_token {
            return true;
        }
        TOKEN_EXPIRY_MARGIN + now - self.token_creation_time > self.token_lifespan as u64
    }

    /// Whether a token is held that has not expired at `now`.
    pub fn is_logged_in(&self, now: u64) -> (r: bool)
        requires
            self.has_token ==> now + TOKEN_EXPIRY_MARGIN <= u64::MAX,
            self.has_token ==> self.token_creation_time <= now + TOKEN_EXPIRY_MARGIN,
        ensures
            r == (self.has_token && now + TOKEN_EXPIRY_MARGIN - self.token_creation_time
                <= self.token_lifespan),
    {
        self.has_token && !self.token_expired(now)
    }

    /// Record a failed login at `now` (nanoseconds since the UNIX epoch): the
    /// token is dropped and the failure counted.
    pub fn set_login_failed(&mut self, now: i64)
        requires
            old(self).num_failed_reconnects < u32::MAX,
        ensures
            final(self).num_failed_reconnects == old(self).num_failed_reconnects + 1,
            final(self).last_failed_reconnect == Some(now),
            !final(self).has_token,
            final(self).server == old(self).server,
            final(self).user == old(self).user,
            final(self).token_command == old(self).token_command,
            final(self).token_lifespan == old(self).token_lifespan,
            final(self).token_creation_time == old(self).token_creation_time,
            final(self).version == old(self).version,
    {
        self.num_failed_reconnects = self.num_failed_reconnects + 1;
        self.last_failed_reconnect = Some(now);
        self.has_token = false;
    }

    /// Record a successful login that created its token at `start_time`
    /// (seconds since the UNIX epoch) against API `version`.
    pub fn set_login_success(&mut self, start_time: u64, version: String)
        ensures
            final(self).has_token,
            final(self).token_creation_time == start_time,
            final(self).version == version,
            final(self).num_failed_reconnects == 0,
            final(self).last_failed_reconnect is None,
            final(self).server == old(self).server,
            final(self).user == old(self).user,
            final(self).token_command == old(self).token_command,
            final(self).token_lifespan == old(self).token_lifespan,
    {
        self.has_token = true;
        self.token_creation_time = start_time;
        self.version = version;
        self.num_failed_reconnects = 0;
        self.last_failed_reconnect = None;
    }

    /// Whether to hold off logging in at `now` (nanoseconds since the UNIX
    /// epoch): after three failures, for twenty seconds per failure since
    /// the last one.
    pub fn should_backoff(&self, now: i64) -> (r: bool)
        ensures
            r == (self.num_failed_reconnects >= BACKOFF_AFTER_FAILURES && (self.last_failed_reconnect matches Some(
                last,
            ) && (now as int) < last as int + BACKOFF_SECONDS_PER_FAILURE
                * self.num_failed_reconnects as int * crate::bridge_server::NANOS_PER_SECOND)),
    {
        if self.num_failed_reconnects < BACKOFF_AFTER_FAILURES {
            return false;
        }
        match self.last_failed_reconnect {
            Some(last) => (now as i128) < last as i128 + BACKOFF_SECONDS_PER_FAILURE
                * self.num_failed_reconnects as i128 * crate::bridge_server::NANOS_PER_SECOND,
            None => false,
        }
    }
}


/// What to do with a server, on a pass over them in search of a session.
#[derive(Debug, Clone, Copy, PartialEq, Eq, Structural)]
pub enum ServerStep {
    /// Its session is live: use it.
    Use,
    /// It is backing off after failed logins: pass it over.
    Skip,
    /// Log in to it.
    Login,
}

/// The message when every server is backing off.
pub const ALL_BACKING_OFF: &'static str = "All Slurm servers are backing off because of repeated login failures.";

impl SlurmServer {
    /// What to do with this server at `now_seconds` (for its token) and
    /// `now_nanos` (for its back-off): use a live session, pass over a server
    /// that is backing off, and otherwise log in.
    pub fn connect_step(&self, now_seconds: u64, now_nanos: i64) -> (r: ServerStep)
        requires
            self.has_token ==> now_seconds + TOKEN_EXPIRY_MARGIN <= u64::MAX,
            self.has_token ==> self.token_creation_time <= now_seconds + TOKEN_EXPIRY_MARGIN,
        ensures
            r == (if self.has_token && now_seconds + TOKEN_EXPIRY_MARGIN - self.token_creation_time
                <= self.token_lifespan {
                ServerStep::Use
            } else if self.num_failed_reconnects >= BACKOFF_AFTER_FAILURES && (self.last_failed_reconnect matches Some(
                last,
            ) && (now_nanos as int) < last as int + BACKOFF_SECONDS_PER_FAILURE * self.num_failed_reconnects as int
                * crate::bridge_server::NANOS_PER_SECOND) {
                ServerStep::Skip
            } else {
                ServerStep::Login
            }),
    {
        if self.is_logged_in(now_seconds) {
            ServerStep::Use
        } else if self.should_backoff(now_nanos) {
            ServerStep::Skip
        } else {
            ServerStep::Login
        }
    }
}

/// How a pass over the servers ends when none gave a session: an error where
/// every server was backing off, and otherwise another pass.
pub fn after_pass(all_backing_off: bool) -> (r: Result<(), Error>)
    ensures
        all_backing_off ==> (r matches Err(Error::Call(m)) && m@ == ALL_BACKING_OFF@),
        !all_backing_off ==> r is Ok,
{
    if all_backing_off {
        Err(Error::Call(String::from_str(ALL_BACKING_OFF)))
    } else {
        Ok(())
    }
}


/// The shortest token lifespan honoured, in seconds.
pub const MIN_TOKEN_LIFESPAN: u32 = 10;

/// A configured server: its address, user and token command, trimmed, and
/// its token lifespan, at least `MIN_TOKEN_LIFESPAN`.
pub type ServerConfig = (Seq<char>, Seq<char>, Seq<char>, u32);

/// The servers configured by the first `n` entries of the parallel lists,
/// skipping those whose address is blank.
pub open spec fn configured_servers(
    servers: Seq<String>,
    users: Seq<String>,
    token_commands: Seq<String>,
    token_lifespans: Seq<u32>,
    n: int,
) -> Seq<ServerConfig>
    decreases n,
{
    if n <= 0 {
        Seq::empty()
    } else {
        let rest = configured_servers(servers, users, token_commands, token_lifespans, n - 1);
        let i = n - 1;
        if trim(servers[i]@).len() == 0 {
            rest
        } else {
            rest.push(
                (
                    trim(servers[i]@),
                    trim(users[i]@),
                    trim(token_commands[i]@),
                    if token_lifespans[i] < MIN_TOKEN_LIFESPAN {
                        MIN_TOKEN_LIFESPAN
                    } else {
                        token_lifespans[i]
                    },
                ),
            )
        }
    }
}

pub open spec fn server_config(s: SlurmServer) -> ServerConfig {
    (s.server@, s.user@, s.token_command@, s.token_lifespan)
}

/// The servers to connect to, from the parallel configuration lists, each
/// not yet logged in to. The lists must be of one length.
pub fn initialise_servers(
    servers: &Vec<String>,
    users: &Vec<String>,
    token_commands: &Vec<String>,
    token_lifespans: &Vec<u32>,
) -> (r: Result<Vec<SlurmServer>, Error>)
    ensures
        !(servers@.len() == users@.len() && servers@.len() == token_commands@.len()
            && servers@.len() == token_lifespans@.len()) ==> (r matches Err(Error::Call(m)) && m@
            == "All server configuration vectors must have the same length"@),
        (servers@.len() == users@.len() && servers@.len() == token_commands@.len()
            && servers@.len() == token_lifespans@.len()) ==> (r matches Ok(v) && v@.map_values(
            |s: SlurmServer| server_config(s),
        ) == configured_servers(
            servers@,
            users@,
            token_commands@,
            token_lifespans@,
            servers@.len() as int,
        ) && forall|k: int| 0 <= k < v@.len() ==> !(#[trigger] v@[k]).has_token
            && v@[k].num_failed_reconnects == 0 && v@[k].last_failed_reconnect is None),
{
    if servers.len() != users.len() || servers.len() != token_commands.len() || servers.len()
        != token_lifespans.len() {
        return Err(
            Error::Call(String::from_str("All server configuration vectors must have the same length")),
        );
    }
    let mut out: Vec<SlurmServer> = Vec::new();
    let mut i: usize = 0;
    while i < servers.len()
        invariant
            i <= servers@.len(),
            servers@.len() == users@.len(),
            servers@.len() == token_commands@.len(),
            servers@.len() == token_lifespans@.len(),
            out@.map_values(|s: SlurmServer| server_config(s)) == configured_servers(
                servers@,
                users@,
                token_commands@,
                token_lifespans@,
                i as int,
            ),
            forall|k: int| 0 <= k < out@.len() ==> !(#[trigger] out@[k]).has_token
                && out@[k].num_failed_reconnects == 0 && out@[k].last_failed_reconnect is None,
        decreases servers@.len() - i,
    {
        let server = trim_chars(&chars_of(servers[i].as_str()));
        if server.len() > 0 {
            let user = trim_chars(&chars_of(users[i].as_str()));
            let command = trim_chars(&chars_of(token_commands[i].as_str()));
            let lifespan = if token_lifespans[i] < MIN_TOKEN_LIFESPAN {
                MIN_TOKEN_LIFESPAN
            } else {
                token_lifespans[i]
            };
            let entry = SlurmServer::new(
                string_of(&server).as_str(),
                string_of(&user).as_str(),
                string_of(&command).as_str(),
                lifespan,
            );
            let ghost before = out@;
            out.push(entry);
            assert(out@.map_values(|s: SlurmServer| server_config(s)) =~= before.map_values(
                |s: SlurmServer| server_config(s),
            ).push(server_config(entry)));
        }
        i = i + 1;
    }
    Ok(out)
}


/// One Slurm accounting record: one attempt of a job. Times are in seconds
/// since the UNIX epoch.
#[derive(Debug)]
pub struct SlurmJob {
    pub id: u64,
    pub user: String,
    pub account: String,
    pub cluster: String,
    pub node_info: SlurmNode,
    /// When the attempt started, clipped to the query window.
    pub start_time: i64,
    /// When the attempt really started.
    pub original_start_time: i64,
    pub eligible_time: i64,
    pub end_time: i64,
    /// When this attempt was submitted; with `id`, the record's key.
    pub submission_time: i64,
    /// How many times the job had been requeued when this attempt ran.
    pub restart_count: u64,
    /// The attempt's whole elapsed time, in seconds.
    pub duration: u64,
    /// Every state Slurm reports for this record.
    pub states: Vec<String>,
    pub failed_node: String,
    pub attempt: Attempt,
    pub qos: String,
    pub nodes: u64,
    pub cpus: u64,
    pub gpus: u64,
    pub memory: u64,
    pub requested_nodes: u64,
    pub requested_cpus: u64,
    pub requested_gpus: u64,
    pub requested_memory: u64,
    pub energy: u64,
    pub billing: u64,
    pub requested_billing: u64,
}

/// The terminal states by which requeue events are bucketed, in order of
/// precedence.
pub open spec fn terminal_states() -> Seq<Seq<char>> {
    seq![
        "NODE_FAIL"@,
        "BOOT_FAIL"@,
        "PREEMPTED"@,
        "DEADLINE"@,
        "OUT_OF_MEMORY"@,
        "TIMEOUT"@,
        "REQUEUED"@,
        "CANCELLED"@,
        "REVOKED"@,
        "SPECIAL_EXIT"@,
        "FAILED"@,
        "COMPLETED"@,
        "SUSPENDED"@,
        "RESIZING"@,
    ]
}

/// Whether some state in `states` is `candidate`, ignoring ASCII case.
pub open spec fn reports_state(states: Seq<String>, candidate: Seq<char>) -> bool {
    exists|i: int| 0 <= i < states.len() && lower(#[trigger] states[i]@) == lower(candidate)
}

/// The bucket of the first terminal state, in order of precedence, that the
/// record reports; `OTHER` if it reports none of them.
pub open spec fn terminal_bucket(states: Seq<String>) -> Seq<char> {
    let ts = terminal_states();
    let k = choose|k: int|
        0 <= k < ts.len() && reports_state(states, ts[k]) && forall|m: int|
            0 <= m < k ==> !reports_state(states, #[trigger] ts[m]);
    if exists|k: int| 0 <= k < ts.len() && reports_state(states, #[trigger] ts[k]) {
        ts[k]
    } else {
        "OTHER"@
    }
}

/// Whether `a` and `b` are equal ignoring ASCII case.
pub fn eq_ignore_ascii_case(a: &str, b: &str) -> (r: bool)
    ensures
        r == (lower(a@) == lower(b@)),
{
    let x = to_ascii_lowercase(&chars_of(a));
    let y = to_ascii_lowercase(&chars_of(b));
    if x.len() != y.len() {
        return false;
    }
    let mut i: usize = 0;
    while i < x.len()
        invariant
            i <= x@.len(),
            x@.len() == y@.len(),
            x@ == lower(a@),
            y@ == lower(b@),
            forall|j: int| 0 <= j < i ==> x@[j] == y@[j],
        decreases x@.len() - i,
    {
        if x[i] != y[i] {
            return false;
        }
        i = i + 1;
    }
    assert(x@ =~= y@);
    true
}

fn reports(states: &Vec<String>, candidate: &str) -> (r: bool)
    ensures
        r == reports_state(states@, candidate@),
{
    let mut i: usize = 0;
    while i < states.len()
        invariant
            i <= states@.len(),
            forall|j: int| 0 <= j < i ==> lower(#[trigger] states@[j]@) != lower(candidate@),
        decreases states@.len() - i,
    {
        if eq_ignore_ascii_case(states[i].as_str(), candidate) {
            return true;
        }
        i = i + 1;
    }
    false
}

/// The terminal states, in order of precedence.
pub const TERMINAL_STATES: [&'static str; 14] = [
    "NODE_FAIL",
    "BOOT_FAIL",
    "PREEMPTED",
    "DEADLINE",
    "OUT_OF_MEMORY",
    "TIMEOUT",
    "REQUEUED",
    "CANCELLED",
    "REVOKED",
    "SPECIAL_EXIT",
    "FAILED",
    "COMPLETED",
    "SUSPENDED",
    "RESIZING",
];

/// `n` as a `u64`, wrapping a negative value as `as u64` does.
pub open spec fn wrapped_u64(n: int) -> int {
    if n >= 0 {
        n
    } else {
        n + 0x1_0000_0000_0000_0000
    }
}

impl SlurmJob {
    /// The seconds this attempt ran within the query window, if it ran at
    /// all.
    pub open spec fn duration_spec(&self) -> int {
        if self.duration > 0 {
            self.end_time - self.start_time
        } else {
            0
        }
    }

    pub fn duration(&self) -> (r: i64)
        requires
            i64::MIN <= self.end_time - self.start_time <= i64::MAX,
        ensures
            r == self.duration_spec(),
    {
        if self.duration > 0 {
            self.end_time - self.start_time
        } else {
            0
        }
    }

    /// The time the attempt spent waiting to start after it became
    /// eligible, measured from its real start; never negative.
    pub fn wait_time(&self) -> (r: i64)
        requires
            i64::MIN <= self.original_start_time - self.eligible_time <= i64::MAX,
        ensures
            r == if self.original_start_time - self.eligible_time < 0 {
                0
            } else {
                self.original_start_time - self.eligible_time
            },
    {
        let wait = self.original_start_time - self.eligible_time;
        if wait < 0 {
            0
        } else {
            wait
        }
    }

    /// The whole elapsed time of the attempt, including any outside the
    /// query window.
    pub fn total_duration(&self) -> (r: u64)
        ensures
            r == self.duration,
    {
        self.duration
    }

    /// The state this attempt ended in, bucketed for reporting: the first
    /// terminal state, in order of precedence, that the record reports, or
    /// `OTHER`.
    pub fn terminal_state(&self) -> (r: &'static str)
        ensures
            r@ == terminal_bucket(self.states@),
    {
        let ghost ts = terminal_states();
        let mut k: usize = 0;
        while k < 14
            invariant
                k <= 14,
                ts == terminal_states(),
                forall|m: int| 0 <= m < k ==> !reports_state(self.states@, #[trigger] ts[m]),
            decreases 14 - k,
        {
            let candidate = TERMINAL_STATES[k];
            assert(candidate@ == ts[k as int]);
            if reports(&self.states, candidate) {
                assert(reports_state(self.states@, ts[k as int]));
                return candidate;
            }
            k = k + 1;
        }
        "OTHER"
    }

    /// Core-seconds used within the window, at least one where cores ran
    /// for a positive time.
    pub fn cpu_seconds(&self) -> (r: u64)
        requires
            i64::MIN <= self.end_time - self.start_time <= i64::MAX,
            self.cpus * wrapped_u64(self.duration_spec()) <= u64::MAX,
        ensures
            r == usage_seconds(self.cpus, self.duration_spec()),
    {
        resource_seconds(self.cpus, self.duration())
    }

    /// GPU-seconds used within the window, at least one where GPUs ran for a
    /// positive time.
    pub fn gpu_seconds(&self) -> (r: u64)
        requires
            i64::MIN <= self.end_time - self.start_time <= i64::MAX,
            self.gpus * wrapped_u64(self.duration_spec()) <= u64::MAX,
        ensures
            r == usage_seconds(self.gpus, self.duration_spec()),
    {
        resource_seconds(self.gpus, self.duration())
    }

    /// Memory-seconds used within the window, at least one where memory was
    /// held for a positive time.
    pub fn memory_seconds(&self) -> (r: u64)
        requires
            i64::MIN <= self.end_time - self.start_time <= i64::MAX,
            self.memory * wrapped_u64(self.duration_spec()) <= u64::MAX,
        ensures
            r == usage_seconds(self.memory, self.duration_spec()),
    {
        resource_seconds(self.memory, self.duration())
    }
}

impl SlurmJob {
    /// Billing-seconds used within the window, at least one where a billing
    /// weight was held for a positive time.
    pub fn billing_seconds(&self) -> (r: u64)
        requires
            i64::MIN <= self.end_time - self.start_time <= i64::MAX,
            self.billing * wrapped_u64(self.duration_spec()) <= u64::MAX,
        ensures
            r == usage_seconds(self.billing, self.duration_spec()),
    {
        resource_seconds(self.billing, self.duration())
    }

    /// Whether this attempt was superseded by a requeue.
    pub fn is_requeued_attempt(&self) -> (r: bool)
        ensures
            r == (self.attempt == Attempt::Requeued),
    {
        match self.attempt {
            Attempt::Requeued => true,
            Attempt::Base => false,
        }
    }

    pub fn id(&self) -> (r: u64)
        ensures
            r == self.id,
    {
        self.id
    }

    pub fn user(&self) -> (r: &str)
        ensures
            r@ == self.user@,
    {
        self.user.as_str()
    }

    pub fn account(&self) -> (r: &str)
        ensures
            r@ == self.account@,
    {
        self.account.as_str()
    }

    pub fn cluster(&self) -> (r: &str)
        ensures
            r@ == self.cluster@,
    {
        self.cluster.as_str()
    }

    pub fn node_info(&self) -> (r: &SlurmNode)
        ensures
            *r == self.node_info,
    {
        &self.node_info
    }

    /// When the attempt started, clipped to the query window.
    pub fn start_time(&self) -> (r: i64)
        ensures
            r == self.start_time,
    {
        self.start_time
    }

    /// When the attempt really started.
    pub fn original_start_time(&self) -> (r: i64)
        ensures
            r == self.original_start_time,
    {
        self.original_start_time
    }

    pub fn eligible_time(&self) -> (r: i64)
        ensures
            r == self.eligible_time,
    {
        self.eligible_time
    }

    pub fn end_time(&self) -> (r: i64)
        ensures
            r == self.end_time,
    {
        self.end_time
    }

    pub fn submission_time(&self) -> (r: i64)
        ensures
            r == self.submission_time,
    {
        self.submission_time
    }

    /// Every state Slurm reported for this record.
    pub fn states(&self) -> (r: &Vec<String>)
        ensures
            r@ == self.states@,
    {
        &self.states
    }

    pub fn restart_count(&self) -> (r: u64)
        ensures
            r == self.restart_count,
    {
        self.restart_count
    }

    pub fn attempt(&self) -> (r: Attempt)
        ensures
            r == self.attempt,
    {
        self.attempt
    }

    pub fn failed_node(&self) -> (r: &str)
        ensures
            r@ == self.failed_node@,
    {
        self.failed_node.as_str()
    }

    pub fn qos(&self) -> (r: &str)
        ensures
            r@ == self.qos@,
    {
        self.qos.as_str()
    }

    pub fn nodes(&self) -> (r: u64)
        ensures
            r == self.nodes,
    {
        self.nodes
    }

    pub fn cpus(&self) -> (r: u64)
        ensures
            r == self.cpus,
    {
        self.cpus
    }

    pub fn gpus(&self) -> (r: u64)
        ensures
            r == self.gpus,
    {
        self.gpus
    }

    pub fn memory(&self) -> (r: u64)
        ensures
            r == self.memory,
    {
        self.memory
    }

    pub fn requested_nodes(&self) -> (r: u64)
        ensures
            r == self.requested_nodes,
    {
        self.requested_nodes
    }

    pub fn requested_cpus(&self) -> (r: u64)
        ensures
            r == self.requested_cpus,
    {
        self.requested_cpus
    }

    pub fn requested_gpus(&self) -> (r: u64)
        ensures
            r == self.requested_gpus,
    {
        self.requested_gpus
    }

    pub fn requested_memory(&self) -> (r: u64)
        ensures
            r == self.requested_memory,
    {
        self.requested_memory
    }

    pub fn energy(&self) -> (r: u64)
        ensures
            r == self.energy,
    {
        self.energy
    }

    pub fn billing(&self) -> (r: u64)
        ensures
            r == self.billing,
    {
        self.billing
    }

    pub fn requested_billing(&self) -> (r: u64)
        ensures
            r == self.requested_billing,
    {
        self.requested_billing
    }
}

/// `amount` times the seconds `d` (wrapped as `as u64` wraps it), but at
/// least one where a positive amount was held for a positive time.
pub open spec fn usage_seconds(amount: u64, d: int) -> int {
    if amount * wrapped_u64(d) == 0 && amount > 0 && d > 0 {
        1
    } else {
        amount * wrapped_u64(d)
    }
}

fn resource_seconds(amount: u64, d: i64) -> (r: u64)
    requires
        amount * wrapped_u64(d as int) <= u64::MAX,
    ensures
        r == usage_seconds(amount, d as int),
{
    let du: u64 = if d >= 0 {
        d as u64
    } else {
        (d as i128 + 0x1_0000_0000_0000_0000i128) as u64
    };
    let product = amount * du;
    if product == 0 && amount > 0 && d > 0 {
        1
    } else {
        product
    }
}


/// The key by which a record is ordered among the records of its job: the
/// job id, the submission time, the restart count, and the record's place
/// in the response.
pub type AttemptKey = (u64, i64, u64, usize);

pub open spec fn key_lt(a: AttemptKey, b: AttemptKey) -> bool {
    ||| a.0 < b.0
    ||| a.0 == b.0 && a.1 < b.1
    ||| a.0 == b.0 && a.1 == b.1 && a.2 < b.2
    ||| a.0 == b.0 && a.1 == b.1 && a.2 == b.2 && a.3 < b.3
}

pub open spec fn attempt_key(jobs: Seq<SlurmJob>, i: int) -> AttemptKey {
    (jobs[i].id, jobs[i].submission_time, jobs[i].restart_count, i as usize)
}

pub open spec fn strictly_sorted(s: Seq<AttemptKey>) -> bool {
    forall|i: int, j: int| 0 <= i < j < s.len() ==> key_lt(#[trigger] s[i], #[trigger] s[j])
}

proof fn lemma_key_lt_transitive(a: AttemptKey, b: AttemptKey, c: AttemptKey)
    requires
        key_lt(a, b),
        key_lt(b, c),
    ensures
        key_lt(a, c),
{
}

proof fn lemma_take_push_contains(s: Seq<AttemptKey>, i: int, x: AttemptKey)
    requires
        0 <= i < s.len(),
    ensures
        s.take(i + 1).contains(x) <==> (s.take(i).contains(x) || x == s[i]),
{
    assert(s.take(i + 1) =~= s.take(i).push(s[i]));
    crate::text::lemma_seq_contains_push(s.take(i), s[i], x);
}

/// The keys of two sorted, disjoint lists, in one sorted list.
fn merge_keys(a: &Vec<AttemptKey>, b: &Vec<AttemptKey>) -> (r: Vec<AttemptKey>)
    requires
        strictly_sorted(a@),
        strictly_sorted(b@),
        forall|x: AttemptKey| !(a@.contains(x) && b@.contains(x)),
    ensures
        r@.len() == a@.len() + b@.len(),
        forall|x: AttemptKey| r@.contains(x) <==> (a@.contains(x) || b@.contains(x)),
        strictly_sorted(r@),
{
    let mut r: Vec<AttemptKey> = Vec::new();
    let mut i: usize = 0;
    let mut j: usize = 0;
    assert(a@.take(0) =~= Seq::<AttemptKey>::empty());
    assert(b@.take(0) =~= Seq::<AttemptKey>::empty());
    while i < a.len() || j < b.len()
        invariant
            i <= a@.len(),
            j <= b@.len(),
            r@.len() == i + j,
            strictly_sorted(a@),
            strictly_sorted(b@),
            forall|x: AttemptKey| !(a@.contains(x) && b@.contains(x)),
            forall|x: AttemptKey| r@.contains(x) <==> (a@.take(i as int).contains(x) || b@.take(j as int).contains(x)),
            strictly_sorted(r@),
            forall|k: int| 0 <= k < r@.len() ==> (i < a@.len() ==> key_lt(#[trigger] r@[k], a@[i as int])),
            forall|k: int| 0 <= k < r@.len() ==> (j < b@.len() ==> key_lt(#[trigger] r@[k], b@[j as int])),
        decreases a@.len() + b@.len() - i - j,
    {
        let take_a = if i < a.len() && j < b.len() {
            let x = a[i];
            let y = b[j];
            x.0 < y.0 || (x.0 == y.0 && (x.1 < y.1 || (x.1 == y.1 && (x.2 < y.2 || (x.2 == y.2
                && x.3 < y.3)))))
        } else {
            i < a.len()
        };
        let ghost before = r@;
        if take_a {
            let x = a[i];
            proof {
                if j < b@.len() {
                    assert(a@.contains(a@[i as int]));
                    assert(a@[i as int] != b@[j as int]) by {
                        assert(b@.contains(b@[j as int]));
                    }
                    assert(key_lt(x, b@[j as int]));
                }
            }
            r.push(x);
            proof {
                assert forall|z: AttemptKey| r@.contains(z) <==> (a@.take(i + 1).contains(z) || b@.take(j as int).contains(z)) by {
                    crate::text::lemma_seq_contains_push(before, x, z);
                    lemma_take_push_contains(a@, i as int, z);
                }
                assert forall|k: int| 0 <= k < r@.len() implies (i + 1 < a@.len() ==> key_lt(#[trigger] r@[k], a@[i + 1])) by {
                    if i + 1 < a@.len() {
                        assert(key_lt(a@[i as int], a@[i + 1]));
                        if k < before.len() {
                            lemma_key_lt_transitive(r@[k], a@[i as int], a@[i + 1]);
                        }
                    }
                }
                assert forall|k: int| 0 <= k < r@.len() implies (j < b@.len() ==> key_lt(#[trigger] r@[k], b@[j as int])) by {}
                assert forall|p: int, q: int| 0 <= p < q < r@.len() implies key_lt(#[trigger] r@[p], #[trigger] r@[q]) by {}
            }
            i = i + 1;
        } else {
            let y = b[j];
            proof {
                if i < a@.len() {
                    assert(b@.contains(b@[j as int]));
                    assert(a@[i as int] != b@[j as int]) by {
                        assert(a@.contains(a@[i as int]));
                    }
                    assert(key_lt(y, a@[i as int]));
                }
            }
            r.push(y);
            proof {
                assert forall|z: AttemptKey| r@.contains(z) <==> (a@.take(i as int).contains(z) || b@.take(j + 1).contains(z)) by {
                    crate::text::lemma_seq_contains_push(before, y, z);
                    lemma_take_push_contains(b@, j as int, z);
                }
                assert forall|k: int| 0 <= k < r@.len() implies (j + 1 < b@.len() ==> key_lt(#[trigger] r@[k], b@[j + 1])) by {
                    if j + 1 < b@.len() {
                        assert(key_lt(b@[j as int], b@[j + 1]));
                        if k < before.len() {
                            lemma_key_lt_transitive(r@[k], b@[j as int], b@[j + 1]);
                        }
                    }
                }
                assert forall|k: int| 0 <= k < r@.len() implies (i < a@.len() ==> key_lt(#[trigger] r@[k], a@[i as int])) by {}
                assert forall|p: int, q: int| 0 <= p < q < r@.len() implies key_lt(#[trigger] r@[p], #[trigger] r@[q]) by {}
            }
            j = j + 1;
        }
    }
    assert(a@.take(a@.len() as int) =~= a@);
    assert(b@.take(b@.len() as int) =~= b@);
    r
}

/// The keys in increasing order.
fn sort_keys(keys: &Vec<AttemptKey>) -> (r: Vec<AttemptKey>)
    requires
        keys@.no_duplicates(),
    ensures
        r@.len() == keys@.len(),
        forall|x: AttemptKey| r@.contains(x) <==> keys@.contains(x),
        strictly_sorted(r@),
    decreases keys@.len(),
{
    let n = keys.len();
    if n <= 1 {
        let mut r: Vec<AttemptKey> = Vec::new();
        if n == 1 {
            r.push(keys[0]);
            assert(r@ =~= keys@);
        } else {
            assert(r@ =~= keys@);
        }
        return r;
    }
    let mid = n / 2;
    let mut left: Vec<AttemptKey> = Vec::new();
    let mut right: Vec<AttemptKey> = Vec::new();
    let mut i: usize = 0;
    while i < n
        invariant
            i <= n,
            n == keys@.len(),
            mid == n / 2,
            left@ == keys@.take(if i < mid { i as int } else { mid as int }),
            right@ == keys@.subrange(mid as int, if i < mid { mid as int } else { i as int }),
        decreases n - i,
    {
        if i < mid {
            left.push(keys[i]);
            assert(left@ =~= keys@.take(i + 1));
        } else {
            right.push(keys[i]);
            assert(right@ =~= keys@.subrange(mid as int, i + 1));
        }
        i = i + 1;
    }
    assert(left@.no_duplicates()) by {
        assert forall|p: int, q: int| 0 <= p < left@.len() && 0 <= q < left@.len() && p != q implies left@[p] != left@[q] by {
            assert(left@[p] == keys@[p] && left@[q] == keys@[q]);
        }
    }
    assert(right@.no_duplicates()) by {
        assert forall|p: int, q: int| 0 <= p < right@.len() && 0 <= q < right@.len() && p != q implies right@[p] != right@[q] by {
            assert(right@[p] == keys@[mid + p] && right@[q] == keys@[mid + q]);
        }
    }
    let sl = sort_keys(&left);
    let sr = sort_keys(&right);
    assert forall|x: AttemptKey| !(sl@.contains(x) && sr@.contains(x)) by {
        if sl@.contains(x) && sr@.contains(x) {
            assert(left@.contains(x));
            assert(right@.contains(x));
            let p = choose|p: int| 0 <= p < left@.len() && left@[p] == x;
            let q = choose|q: int| 0 <= q < right@.len() && right@[q] == x;
            assert(keys@[p] == keys@[mid + q]);
        }
    }
    let r = merge_keys(&sl, &sr);
    assert forall|x: AttemptKey| r@.contains(x) <==> keys@.contains(x) by {
        if keys@.contains(x) {
            let p = choose|p: int| 0 <= p < keys@.len() && keys@[p] == x;
            if p < mid {
                assert(left@[p] == x);
                assert(left@.contains(x));
            } else {
                assert(right@[p - mid] == x);
                assert(right@.contains(x));
            }
        }
        if left@.contains(x) {
            let p = choose|p: int| 0 <= p < left@.len() && left@[p] == x;
            assert(keys@[p] == x);
        }
        if right@.contains(x) {
            let q = choose|q: int| 0 <= q < right@.len() && right@[q] == x;
            assert(keys@[mid + q] == x);
        }
    }
    r
}

/// Record `j` is the next attempt after record `i` of the same job: the one
/// that follows it most closely in submission order.
pub open spec fn next_attempt(jobs: Seq<SlurmJob>, i: int, j: int) -> bool {
    &&& 0 <= j < jobs.len()
    &&& jobs[j].id == jobs[i].id
    &&& key_lt(attempt_key(jobs, i), attempt_key(jobs, j))
    &&& forall|k: int|
        0 <= k < jobs.len() && jobs[k].id == jobs[i].id && key_lt(
            attempt_key(jobs, i),
            #[trigger] attempt_key(jobs, k),
        ) ==> !key_lt(attempt_key(jobs, k), attempt_key(jobs, j))
}

/// Some other record in the response has the same job id as record `i`.
pub open spec fn shares_id(jobs: Seq<SlurmJob>, i: int) -> bool {
    exists|j: int| 0 <= j < jobs.len() && j != i && #[trigger] jobs[j].id == jobs[i].id
}

/// A later attempt of the same job follows record `i`: its next record has
/// a higher restart count. A next record whose restart count does not rise
/// belongs to another job that reuses the id.
pub open spec fn superseded(jobs: Seq<SlurmJob>, i: int) -> bool {
    exists|j: int| #[trigger] next_attempt(jobs, i, j) && jobs[j].restart_count > jobs[i].restart_count
}

/// How record `i` is classified: a record alone in its job keeps its
/// classification; otherwise it is `Requeued` if superseded, else `Base`.
pub open spec fn classified(jobs: Seq<SlurmJob>, i: int) -> Attempt {
    if !shares_id(jobs, i) {
        jobs[i].attempt
    } else if superseded(jobs, i) {
        Attempt::Requeued
    } else {
        Attempt::Base
    }
}


/// The latest record, in submission order, among the first `n` records of
/// job `id`, given that record `w` is one of them.
proof fn latest_of_job(jobs: Seq<SlurmJob>, id: u64, n: int, w: int) -> (m: int)
    requires
        0 <= w < n <= jobs.len(),
        jobs[w].id == id,
    ensures
        0 <= m < n,
        jobs[m].id == id,
        forall|k: int| 0 <= k < n && jobs[k].id == id ==> !key_lt(attempt_key(jobs, m), #[trigger] attempt_key(jobs, k)),
    decreases n,
{
    let last = n - 1;
    if w < last {
        let p = latest_of_job(jobs, id, last, w);
        if jobs[last].id == id && key_lt(attempt_key(jobs, p), attempt_key(jobs, last)) {
            last
        } else {
            p
        }
    } else if exists|k: int| 0 <= k < last && jobs[k].id == id {
        let k = choose|k: int| 0 <= k < last && jobs[k].id == id;
        let p = latest_of_job(jobs, id, last, k);
        if key_lt(attempt_key(jobs, p), attempt_key(jobs, last)) {
            last
        } else {
            p
        }
    } else {
        w
    }
}

/// Every job keeps a record classified as its last attempt: however its
/// records are classified, the latest of them is `Base`.
pub proof fn law_every_job_keeps_a_base_record(jobs: Seq<SlurmJob>, i: int)
    requires
        0 <= i < jobs.len(),
        shares_id(jobs, i),
    ensures
        exists|j: int| 0 <= j < jobs.len() && jobs[j].id == jobs[i].id && #[trigger] classified(jobs, j) == Attempt::Base,
{
    let m = latest_of_job(jobs, jobs[i].id, jobs.len() as int, i);
    assert(shares_id(jobs, m)) by {
        if m == i {
        } else {
            assert(jobs[i].id == jobs[m].id);
        }
    }
    assert(!superseded(jobs, m)) by {
        if superseded(jobs, m) {
            let j = choose|j: int| #[trigger] next_attempt(jobs, m, j) && jobs[j].restart_count > jobs[m].restart_count;
            assert(key_lt(attempt_key(jobs, m), attempt_key(jobs, j)));
        }
    }
    assert(classified(jobs, m) == Attempt::Base);
}

/// The earliest record, in submission order, among the first `n` records of
/// the job of record `i` that come after `i`, given that record `w` is one.
proof fn next_of_job(jobs: Seq<SlurmJob>, i: int, n: int, w: int) -> (m: int)
    requires
        0 <= i < jobs.len(),
        0 <= w < n <= jobs.len(),
        jobs[w].id == jobs[i].id,
        key_lt(attempt_key(jobs, i), attempt_key(jobs, w)),
    ensures
        0 <= m < n,
        jobs[m].id == jobs[i].id,
        key_lt(attempt_key(jobs, i), attempt_key(jobs, m)),
        forall|k: int|
            0 <= k < n && jobs[k].id == jobs[i].id && key_lt(attempt_key(jobs, i), attempt_key(jobs, k))
                ==> !key_lt(#[trigger] attempt_key(jobs, k), attempt_key(jobs, m)),
    decreases n,
{
    let last = n - 1;
    if w < last {
        let p = next_of_job(jobs, i, last, w);
        if jobs[last].id == jobs[i].id && key_lt(attempt_key(jobs, i), attempt_key(jobs, last)) && key_lt(
            attempt_key(jobs, last),
            attempt_key(jobs, p),
        ) {
            last
        } else {
            p
        }
    } else if exists|k: int|
        0 <= k < last && jobs[k].id == jobs[i].id && key_lt(attempt_key(jobs, i), #[trigger] attempt_key(jobs, k)) {
        let k = choose|k: int|
            0 <= k < last && jobs[k].id == jobs[i].id && key_lt(attempt_key(jobs, i), #[trigger] attempt_key(jobs, k));
        let p = next_of_job(jobs, i, last, k);
        if key_lt(attempt_key(jobs, last), attempt_key(jobs, p)) {
            last
        } else {
            p
        }
    } else {
        w
    }
}

/// Where the attempts of a job form one chain, their restart counts rising
/// in submission order, exactly the latest is `Base` and every earlier one
/// `Requeued`.
pub proof fn law_a_chain_of_attempts_has_one_base(jobs: Seq<SlurmJob>, i: int)
    requires
        0 <= i < jobs.len(),
        shares_id(jobs, i),
        forall|a: int, b: int|
            0 <= a < jobs.len() && 0 <= b < jobs.len() && jobs[a].id == jobs[i].id && jobs[b].id == jobs[i].id
                && key_lt(#[trigger] attempt_key(jobs, a), #[trigger] attempt_key(jobs, b))
                ==> jobs[a].restart_count < jobs[b].restart_count,
    ensures
        classified(jobs, i) == (if exists|k: int|
            0 <= k < jobs.len() && jobs[k].id == jobs[i].id && key_lt(attempt_key(jobs, i), #[trigger] attempt_key(jobs, k)) {
            Attempt::Requeued
        } else {
            Attempt::Base
        }),
{
    if exists|k: int|
        0 <= k < jobs.len() && jobs[k].id == jobs[i].id && key_lt(attempt_key(jobs, i), #[trigger] attempt_key(jobs, k)) {
        let w = choose|k: int|
            0 <= k < jobs.len() && jobs[k].id == jobs[i].id && key_lt(attempt_key(jobs, i), #[trigger] attempt_key(jobs, k));
        let m = next_of_job(jobs, i, jobs.len() as int, w);
        assert(next_attempt(jobs, i, m));
        assert(jobs[m].restart_count > jobs[i].restart_count);
        assert(superseded(jobs, i));
    } else {
        assert(!superseded(jobs, i)) by {
            if superseded(jobs, i) {
                let j = choose|j: int| #[trigger] next_attempt(jobs, i, j) && jobs[j].restart_count > jobs[i].restart_count;
                assert(key_lt(attempt_key(jobs, i), attempt_key(jobs, j)));
            }
        }
    }
}
/// Record `i` is the latest attempt of its job in submission order: the one
/// record of the job that default `sacct`, which reports only the latest
/// attempt, returns.
pub open spec fn latest_attempt(jobs: Seq<SlurmJob>, i: int) -> bool {
    !exists|k: int|
        0 <= k < jobs.len() && jobs[k].id == jobs[i].id && key_lt(attempt_key(jobs, i), #[trigger] attempt_key(jobs, k))
}

/// Where every record is read as a base record and the attempts of each job
/// form one chain, their restart counts rising in submission order, the
/// records classified `Base` are exactly the latest attempt of each job. So
/// what is counted as base usage is what default `sacct` reported, and every
/// earlier attempt is counted as requeued instead.
pub proof fn law_base_records_are_what_default_sacct_reports(jobs: Seq<SlurmJob>)
    requires
        forall|a: int| 0 <= a < jobs.len() ==> #[trigger] jobs[a].attempt == Attempt::Base,
        forall|a: int, b: int|
            0 <= a < jobs.len() && 0 <= b < jobs.len() && jobs[a].id == jobs[b].id && key_lt(
                #[trigger] attempt_key(jobs, a),
                #[trigger] attempt_key(jobs, b),
            ) ==> jobs[a].restart_count < jobs[b].restart_count,
    ensures
        forall|i: int| 0 <= i < jobs.len() ==> (#[trigger] classified(jobs, i) == Attempt::Base <==> latest_attempt(jobs, i)),
{
    assert forall|i: int| 0 <= i < jobs.len() implies (#[trigger] classified(jobs, i) == Attempt::Base
        <==> latest_attempt(jobs, i)) by {
        if shares_id(jobs, i) {
            law_a_chain_of_attempts_has_one_base(jobs, i);
        } else {
            assert(jobs[i].attempt == Attempt::Base);
            assert(latest_attempt(jobs, i)) by {
                if !latest_attempt(jobs, i) {
                    let k = choose|k: int|
                        0 <= k < jobs.len() && jobs[k].id == jobs[i].id && key_lt(
                            attempt_key(jobs, i),
                            #[trigger] attempt_key(jobs, k),
                        );
                    assert(k != i);
                }
            }
        }
    }
}


/// `keys` holds the attempt key of every record, each once, in increasing
/// order.
pub open spec fn sorted_keys_of(jobs: Seq<SlurmJob>, keys: Seq<AttemptKey>) -> bool {
    &&& keys.len() == jobs.len()
    &&& jobs.len() <= usize::MAX
    &&& forall|p: int|
        0 <= p < keys.len() ==> (#[trigger] keys[p]).3 < jobs.len() && keys[p] == attempt_key(
            jobs,
            keys[p].3 as int,
        )
    &&& forall|j: int| 0 <= j < jobs.len() ==> keys.contains(#[trigger] attempt_key(jobs, j))
    &&& forall|a: int, b: int| 0 <= a < b < keys.len() ==> key_lt(#[trigger] keys[a], #[trigger] keys[b])
}

proof fn lemma_key_order(a: AttemptKey, b: AttemptKey)
    ensures
        key_lt(a, b) ==> a.0 <= b.0,
        key_lt(a, b) ==> !key_lt(b, a),
        !key_lt(a, a),
{
}

/// Where the record at position `p` of the sorted keys stands among the
/// records of its job: it shares its id exactly when a neighbour in the
/// sorted order does, and it is superseded exactly when the next key in the
/// sorted order is of the same job with a higher restart count.
proof fn lemma_sorted_neighbours(jobs: Seq<SlurmJob>, keys: Seq<AttemptKey>, p: int)
    requires
        sorted_keys_of(jobs, keys),
        0 <= p < keys.len(),
    ensures
        shares_id(jobs, keys[p].3 as int) <==> ((p > 0 && keys[p - 1].0 == keys[p].0) || (p + 1
            < keys.len() && keys[p + 1].0 == keys[p].0)),
        superseded(jobs, keys[p].3 as int) <==> (p + 1 < keys.len() && keys[p + 1].0 == keys[p].0
            && keys[p + 1].2 > keys[p].2),
{
    let n = keys.len();
    let j = keys[p].3 as int;
    assert(keys[p] == attempt_key(jobs, j));
    if p > 0 && keys[p - 1].0 == keys[p].0 {
        let j2 = keys[p - 1].3 as int;
        assert(keys[p - 1] == attempt_key(jobs, j2));
        assert(key_lt(keys[p - 1], keys[p]));
        assert(j2 != j);
        assert(jobs[j2].id == jobs[j].id);
    }
    if p + 1 < n && keys[p + 1].0 == keys[p].0 {
        let j2 = keys[p + 1].3 as int;
        assert(keys[p + 1] == attempt_key(jobs, j2));
        assert(key_lt(keys[p], keys[p + 1]));
        assert(j2 != j);
        assert(jobs[j2].id == jobs[j].id);
        // the next key is the next attempt
        assert forall|k: int|
            0 <= k < jobs.len() && jobs[k].id == jobs[j].id && key_lt(
                attempt_key(jobs, j),
                #[trigger] attempt_key(jobs, k),
            ) implies !key_lt(attempt_key(jobs, k), attempt_key(jobs, j2)) by {
            assert(keys.contains(attempt_key(jobs, k)));
            let q = choose|q: int| 0 <= q < n && keys[q] == attempt_key(jobs, k);
            lemma_key_order(keys[q], keys[p]);
            lemma_key_order(keys[p], keys[q]);
            lemma_key_order(keys[q], keys[p + 1]);
            lemma_key_order(keys[p + 1], keys[q]);
            if q < p {
                assert(key_lt(keys[q], keys[p]));
            } else if q > p + 1 {
                assert(key_lt(keys[p + 1], keys[q]));
            }
        }
        assert(next_attempt(jobs, j, j2));
    }
    if shares_id(jobs, j) {
        let j2 = choose|j2: int| 0 <= j2 < jobs.len() && j2 != j && #[trigger] jobs[j2].id == jobs[j].id;
        assert(keys.contains(attempt_key(jobs, j2)));
        let q = choose|q: int| 0 <= q < n && keys[q] == attempt_key(jobs, j2);
        assert(keys[q].3 != keys[p].3);
        assert(q != p);
        if q < p {
            assert(key_lt(keys[q], keys[p - 1]) || q == p - 1);
            lemma_key_order(keys[q], keys[p - 1]);
            lemma_key_order(keys[p - 1], keys[p]);
            assert(key_lt(keys[p - 1], keys[p]));
        } else {
            assert(key_lt(keys[p + 1], keys[q]) || q == p + 1);
            lemma_key_order(keys[p + 1], keys[q]);
            lemma_key_order(keys[p], keys[p + 1]);
            assert(key_lt(keys[p], keys[p + 1]));
        }
    }
    if superseded(jobs, j) {
        let j2 = choose|j2: int| #[trigger] next_attempt(jobs, j, j2) && jobs[j2].restart_count > jobs[j].restart_count;
        assert(keys.contains(attempt_key(jobs, j2)));
        let q = choose|q: int| 0 <= q < n && keys[q] == attempt_key(jobs, j2);
        lemma_key_order(keys[p], keys[q]);
        lemma_key_order(keys[q], keys[p]);
        if q <= p {
            if q < p {
                assert(key_lt(keys[q], keys[p]));
            }
            assert(false);
        }
        if q > p + 1 {
            let k = keys[p + 1].3 as int;
            assert(keys[p + 1] == attempt_key(jobs, k));
            assert(key_lt(keys[p], keys[p + 1]));
            assert(key_lt(keys[p + 1], keys[q]));
            lemma_key_order(keys[p], keys[p + 1]);
            lemma_key_order(keys[p + 1], keys[q]);
            assert(jobs[k].id == jobs[j].id);
            assert(!key_lt(attempt_key(jobs, k), attempt_key(jobs, j2)));
            assert(false);
        }
        assert(q == p + 1);
    }
}


/// What classification decides for record `j`: nothing for a record alone
/// in its job.
pub open spec fn decision(jobs: Seq<SlurmJob>, j: int) -> Option<Attempt> {
    if shares_id(jobs, j) {
        Some(classified(jobs, j))
    } else {
        None
    }
}

impl SlurmJob {
    /// Mark each record as the last attempt of its job (`Base`) or as an
    /// attempt superseded by a later one (`Requeued`). Records are grouped by
    /// job id and ordered by submission time; within a group the restart
    /// count must rise from one attempt to the next, and where it does not,
    /// the records belong to two jobs that share an id, each with its own
    /// last attempt. A record alone in its group is left as it is.
    pub fn classify_attempts(jobs: &mut Vec<SlurmJob>)
        ensures
            final(jobs)@.len() == old(jobs)@.len(),
            forall|i: int|
                0 <= i < old(jobs)@.len() ==> #[trigger] final(jobs)@[i] == (SlurmJob {
                    attempt: classified(old(jobs)@, i),
                    ..old(jobs)@[i]
                }),
    {
        let ghost js = jobs@;
        let n = jobs.len();
        let mut keys: Vec<AttemptKey> = Vec::new();
        let mut i: usize = 0;
        while i < n
            invariant
                i <= n,
                n == js.len(),
                jobs@ == js,
                keys@.len() == i,
                forall|k: int| 0 <= k < i ==> #[trigger] keys@[k] == attempt_key(js, k),
            decreases n - i,
        {
            keys.push((jobs[i].id, jobs[i].submission_time, jobs[i].restart_count, i));
            i = i + 1;
        }
        let unsorted_keys = keys;
        let ghost unsorted = unsorted_keys@;
        assert(unsorted.no_duplicates()) by {
            assert forall|a: int, b: int| 0 <= a < unsorted.len() && 0 <= b < unsorted.len() && a != b implies unsorted[a] != unsorted[b] by {
                assert(unsorted[a].3 == a as usize);
                assert(unsorted[b].3 == b as usize);
            }
        }
        let keys = sort_keys(&unsorted_keys);
        assert(sorted_keys_of(js, keys@)) by {
            assert forall|p: int| 0 <= p < keys@.len() implies (#[trigger] keys@[p]).3 < js.len()
                && keys@[p] == attempt_key(js, keys@[p].3 as int) by {
                assert(keys@.contains(keys@[p]));
                let k = choose|k: int| 0 <= k < unsorted.len() && unsorted[k] == keys@[p];
                assert(unsorted[k] == attempt_key(js, k));
            }
            assert forall|j: int| 0 <= j < js.len() implies keys@.contains(#[trigger] attempt_key(js, j)) by {
                assert(unsorted[j] == attempt_key(js, j));
                assert(unsorted.contains(unsorted[j]));
            }
            assert(keys@.len() == js.len());
            assert(js.len() <= usize::MAX);
            assert forall|a: int, b: int| 0 <= a < b < keys@.len() implies key_lt(
                #[trigger] keys@[a],
                #[trigger] keys@[b],
            ) by {}
        }
        // the records' positions in the sorted keys are distinct
        assert forall|a: int, b: int| 0 <= a < n && 0 <= b < n && a != b implies #[trigger] keys@[a].3
            != #[trigger] keys@[b].3 by {
            lemma_key_order(keys@[a], keys@[b]);
            lemma_key_order(keys@[b], keys@[a]);
            if a < b {
                assert(key_lt(keys@[a], keys@[b]));
            } else {
                assert(key_lt(keys@[b], keys@[a]));
            }
        }
        let mut decisions: Vec<Option<Attempt>> = Vec::new();
        let mut k: usize = 0;
        while k < n
            invariant
                k <= n,
                decisions@.len() == k,
                forall|m: int| 0 <= m < k ==> #[trigger] decisions@[m] is None,
            decreases n - k,
        {
            decisions.push(None);
            k = k + 1;
        }
        let mut p: usize = 0;
        while p < n
            invariant
                p <= n,
                n == js.len(),
                jobs@ == js,
                decisions@.len() == n,
                sorted_keys_of(js, keys@),
                forall|a: int, b: int| 0 <= a < n && 0 <= b < n && a != b ==> #[trigger] keys@[a].3
                    != #[trigger] keys@[b].3,
                forall|q: int| 0 <= q < p ==> decisions@[(#[trigger] keys@[q]).3 as int] == decision(
                    js,
                    keys@[q].3 as int,
                ),
                forall|q: int| p <= q < n ==> decisions@[(#[trigger] keys@[q]).3 as int] is None,
            decreases n - p,
        {
            let key = keys[p];
            let same_prev = p > 0 && keys[p - 1].0 == key.0;
            let same_next = p + 1 < n && keys[p + 1].0 == key.0;
            proof {
                lemma_sorted_neighbours(js, keys@, p as int);
            }
            if same_prev || same_next {
                let a = if same_next && keys[p + 1].2 > key.2 {
                    Attempt::Requeued
                } else {
                    Attempt::Base
                };
                decisions.set(key.3, Some(a));
            }
            assert(keys@[p as int].3 < n);
            p = p + 1;
        }
        // every record has a position, so has its decision
        assert forall|j: int| 0 <= j < n implies #[trigger] decisions@[j] == decision(js, j) by {
            assert(keys@.contains(attempt_key(js, j)));
            let q = choose|q: int| 0 <= q < n && keys@[q] == attempt_key(js, j);
            assert(keys@[q].3 == j);
        }
        let mut i: usize = 0;
        while i < n
            invariant
                i <= n,
                n == js.len(),
                jobs@.len() == n,
                decisions@.len() == n,
                forall|j: int| 0 <= j < n ==> #[trigger] decisions@[j] == decision(js, j),
                forall|j: int|
                    0 <= j < i ==> #[trigger] jobs@[j] == (SlurmJob {
                        attempt: classified(js, j),
                        ..js[j]
                    }),
                forall|j: int| i <= j < n ==> #[trigger] jobs@[j] == js[j],
            decreases n - i,
        {
            match decisions[i] {
                Some(a) => {
                    jobs[i].attempt = a;
                },
                None => {},
            }
            assert(jobs@[i as int] == (SlurmJob { attempt: classified(js, i as int), ..js[i as int] }));
            i = i + 1;
        }
    }
}


/// A record clipped to the window from `start` to `end`: a start before the
/// window moves to its start, and one after it to its end; an end outside
/// the window moves to the window's end.
pub open spec fn clipped(job: SlurmJob, start: i64, end: i64) -> SlurmJob {
    let s = if job.start_time < start {
        start
    } else if job.start_time > end {
        end
    } else {
        job.start_time
    };
    let e = if job.end_time > end || job.end_time < start {
        end
    } else {
        job.end_time
    };
    SlurmJob { start_time: s, end_time: e, ..job }
}

/// The records, clipped to the window, that ran for some time within it, in
/// order.
pub open spec fn clipped_consumers(jobs: Seq<SlurmJob>, start: i64, end: i64) -> Seq<SlurmJob>
    decreases jobs.len(),
{
    if jobs.len() == 0 {
        Seq::empty()
    } else {
        let rest = clipped_consumers(jobs.drop_last(), start, end);
        let c = clipped(jobs.last(), start, end);
        if c.duration_spec() > 0 {
            rest.push(c)
        } else {
            rest
        }
    }
}
/// `c` is the record `j` with only its start and end moved to fit the window
/// from `start` to `end`: an end that lies in the window is kept, and one
/// outside it becomes the window's end; a start no later than the window's
/// end becomes the later of it and the window's start.
pub open spec fn fits_window_from(c: SlurmJob, j: SlurmJob, start: i64, end: i64) -> bool {
    &&& c == SlurmJob { start_time: c.start_time, end_time: c.end_time, ..j }
    &&& start <= j.end_time <= end ==> c.end_time == j.end_time
    &&& (j.end_time < start || j.end_time > end) ==> c.end_time == end
    &&& j.start_time <= end ==> c.start_time == (if j.start_time < start { start } else { j.start_time })
    &&& j.start_time > end ==> c.start_time == end
}

/// The record that consumer `k` was made from.
proof fn consumer_source(jobs: Seq<SlurmJob>, start: i64, end: i64, k: int) -> (i: int)
    requires
        start <= end,
        0 <= k < clipped_consumers(jobs, start, end).len(),
    ensures
        0 <= i < jobs.len(),
        fits_window_from(clipped_consumers(jobs, start, end)[k], jobs[i], start, end),
    decreases jobs.len(),
{
    let front = jobs.drop_last();
    let rest = clipped_consumers(front, start, end);
    if k < rest.len() {
        let i = consumer_source(front, start, end, k);
        assert(front[i] == jobs[i]);
        i
    } else {
        let i = jobs.len() - 1;
        assert(jobs.last() == jobs[i]);
        i
    }
}

/// Clipping to the window moves only what lies outside it: each consumer is
/// one of the records, fitted to the window as `fits_window_from` says.
pub proof fn law_clipping_keeps_what_lies_in_the_window(jobs: Seq<SlurmJob>, start: i64, end: i64, k: int)
    requires
        start <= end,
        0 <= k < clipped_consumers(jobs, start, end).len(),
    ensures
        exists|i: int|
            0 <= i < jobs.len() && #[trigger] fits_window_from(clipped_consumers(jobs, start, end)[k], jobs[i], start, end),
{
    let i = consumer_source(jobs, start, end, k);
    assert(fits_window_from(clipped_consumers(jobs, start, end)[k], jobs[i], start, end));
}

/// The consumer made from record `i`, given that it ran for a while inside
/// the window.
proof fn consumer_of(jobs: Seq<SlurmJob>, start: i64, end: i64, i: int) -> (k: int)
    requires
        start < end,
        0 <= i < jobs.len(),
        jobs[i].duration > 0,
        jobs[i].start_time < jobs[i].end_time,
        jobs[i].start_time < end,
        jobs[i].end_time > start,
    ensures
        0 <= k < clipped_consumers(jobs, start, end).len(),
        fits_window_from(clipped_consumers(jobs, start, end)[k], jobs[i], start, end),
    decreases jobs.len(),
{
    let front = jobs.drop_last();
    let rest = clipped_consumers(front, start, end);
    if i < jobs.len() - 1 {
        assert(front[i] == jobs[i]);
        let k = consumer_of(front, start, end, i);
        let c = clipped(jobs.last(), start, end);
        if c.duration_spec() > 0 {
            assert(clipped_consumers(jobs, start, end) == rest.push(c));
        }
        k
    } else {
        let c = clipped(jobs.last(), start, end);
        assert(jobs.last() == jobs[i]);
        assert(c.duration_spec() > 0);
        rest.len() as int
    }
}

/// No record that ran inside a window of some length is lost: a record with a positive
/// duration that started before the window's end and ended after its start
/// gives a consumer, fitted to the window.
pub proof fn law_every_record_that_ran_in_the_window_is_kept(jobs: Seq<SlurmJob>, start: i64, end: i64, i: int)
    requires
        start < end,
        0 <= i < jobs.len(),
        jobs[i].duration > 0,
        jobs[i].start_time < jobs[i].end_time,
        jobs[i].start_time < end,
        jobs[i].end_time > start,
    ensures
        exists|k: int|
            0 <= k < clipped_consumers(jobs, start, end).len() && #[trigger] fits_window_from(
                clipped_consumers(jobs, start, end)[k],
                jobs[i],
                start,
                end,
            ),
{
    let k = consumer_of(jobs, start, end, i);
    assert(fits_window_from(clipped_consumers(jobs, start, end)[k], jobs[i], start, end));
}

/// Every record that `get_consumers` keeps lies within the window and ran
/// for some time in it.
pub proof fn law_consumers_lie_within_the_window(jobs: Seq<SlurmJob>, start: i64, end: i64)
    requires
        start <= end,
    ensures
        forall|k: int| 0 <= k < clipped_consumers(jobs, start, end).len() ==> {
            let c = #[trigger] clipped_consumers(jobs, start, end)[k];
            &&& start <= c.start_time <= end
            &&& start <= c.end_time <= end
            &&& c.duration_spec() > 0
        },
    decreases jobs.len(),
{
    if jobs.len() > 0 {
        law_consumers_lie_within_the_window(jobs.drop_last(), start, end);
        let rest = clipped_consumers(jobs.drop_last(), start, end);
        let c = clipped(jobs.last(), start, end);
        assert forall|k: int| 0 <= k < clipped_consumers(jobs, start, end).len() implies {
            let x = #[trigger] clipped_consumers(jobs, start, end)[k];
            &&& start <= x.start_time <= end
            &&& start <= x.end_time <= end
            &&& x.duration_spec() > 0
        } by {
            if k < rest.len() {
                assert(clipped_consumers(jobs, start, end)[k] == rest[k]);
            }
        }
    }
}

/// The UTC date and time chrono writes for a UNIX time in seconds, as
/// `DateTime<Utc>` displays it; `None` where chrono has no date for it.
pub uninterp spec fn utc_text(seconds: int) -> Option<Seq<char>>;

/// Calls `chrono::DateTime::from_timestamp` and, on success, formats the
/// date with `Display`: the text is whatever chrono writes, and `None` is
/// what chrono gives for a second outside its range.
#[verifier::external_body]
fn format_utc(seconds: i64) -> (r: Option<String>)
    ensures
        match r {
            Some(t) => utc_text(seconds as int) == Some(t@),
            None => utc_text(seconds as int) is None,
        },
{
    match chrono::DateTime::from_timestamp(seconds, 0) {
        Some(d) => Some(d.to_string()),
        None => None,
    }
}

/// A time as the error messages show it.
pub open spec fn time_text(seconds: i64) -> Seq<char> {
    match utc_text(seconds as int) {
        Some(t) => t,
        None => crate::text::signed_dec(seconds as int),
    }
}

fn push_time(v: &mut Vec<char>, seconds: i64)
    ensures
        final(v)@ == old(v)@ + time_text(seconds),
{
    match format_utc(seconds) {
        Some(t) => crate::text::push_str(v, t.as_str()),
        None => crate::text::push_signed_decimal(v, seconds),
    }
}

impl SlurmJob {
    /// The records that consumed something in the window from `start` to
    /// `end`, each classified against all the others (before any is
    /// dropped, so that a zero-length last attempt still keeps an earlier
    /// one from being read as the last), then clipped to the window.
    pub fn consumers_of(jobs: Vec<SlurmJob>, start: i64, end: i64) -> (r: Result<Vec<SlurmJob>, Error>)
        requires
            i64::MIN <= end - start <= i64::MAX,
        ensures
            start > end ==> (r matches Err(Error::Call(m)) && m@ == "Start time '"@ + time_text(start)
                + "' is after end time '"@ + time_text(end) + "'"@),
            start <= end ==> (r matches Ok(c) && c@ == clipped_consumers(
                jobs@.map(|i: int, j: SlurmJob| SlurmJob { attempt: classified(jobs@, i), ..j }),
                start,
                end,
            )),
    {
        if start > end {
            let mut m: Vec<char> = Vec::new();
            crate::text::push_str(&mut m, "Start time '");
            push_time(&mut m, start);
            crate::text::push_str(&mut m, "' is after end time '");
            push_time(&mut m, end);
            crate::text::push_str(&mut m, "'");
            return Err(Error::Call(string_of(&m)));
        }
        let ghost given = jobs@;
        let mut jobs = jobs;
        SlurmJob::classify_attempts(&mut jobs);
        let ghost classified_jobs = jobs@;
        assert(classified_jobs =~= given.map(
            |i: int, j: SlurmJob| SlurmJob { attempt: classified(given, i), ..j },
        ));
        let n = jobs.len();
        let mut reversed: Vec<SlurmJob> = Vec::new();
        while jobs.len() > 0
            invariant
                jobs@.len() + reversed@.len() == n,
                n == classified_jobs.len(),
                jobs@ == classified_jobs.take(jobs@.len() as int),
                forall|k: int| 0 <= k < reversed@.len() ==> #[trigger] reversed@[k] == classified_jobs[n - 1 - k],
            decreases jobs@.len(),
        {
            let job = jobs.pop().unwrap();
            reversed.push(job);
            assert(jobs@ =~= classified_jobs.take(jobs@.len() as int));
        }
        let mut out: Vec<SlurmJob> = Vec::new();
        let mut i: usize = 0;
        while reversed.len() > 0
            invariant
                reversed@.len() + i == n,
                n == classified_jobs.len(),
                forall|k: int| 0 <= k < reversed@.len() ==> #[trigger] reversed@[k] == classified_jobs[n - 1 - k],
                out@ == clipped_consumers(classified_jobs.take(i as int), start, end),
                start <= end,
                i64::MIN <= end - start <= i64::MAX,
            decreases reversed@.len(),
        {
            let mut job = reversed.pop().unwrap();
            assert(job == classified_jobs[i as int]);
            if job.start_time < start {
                job.start_time = start;
            } else if job.start_time > end {
                job.start_time = end;
            }
            if job.end_time > end || job.end_time < start {
                job.end_time = end;
            }
            assert(job == clipped(classified_jobs[i as int], start, end));
            assert(classified_jobs.take(i + 1).drop_last() =~= classified_jobs.take(i as int));
            if job.duration() > 0 {
                out.push(job);
            }
            i = i + 1;
        }
        assert(classified_jobs.take(n as int) =~= classified_jobs);
        Ok(out)
    }
}

} // verus!
