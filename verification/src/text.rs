use vstd::prelude::*;
use vstd::string::*;

verus! {

broadcast use vstd::string::group_string_axioms;

pub assume_specification[ String::push ](string: &mut String, ch: char)
    ensures
        final(string)@ == old(string)@.push(ch),
;

/// The characters of `s`, in order.
pub fn chars_of(s: &str) -> (v: Vec<char>)
    ensures
        v@ == s@,
{
    let mut v: Vec<char> = Vec::new();
    for c in it: s.chars()
        invariant
            v@ == it.seq().take(it.index() as int),
            it.seq() == s@,
    {
        v.push(c);
    }
    v
}

/// A `String` holding exactly the characters of `v`.
pub fn string_of(v: &Vec<char>) -> (s: String)
    ensures
        s@ == v@,
{
    let mut s = String::new();
    let mut i: usize = 0;
    while i < v.len()
        invariant
            i <= v.len(),
            s@ == v@.take(i as int),
        decreases v.len() - i,
    {
        s.push(v[i]);
        i = i + 1;
        assert(v@.take(i as int) == v@.take(i - 1).push(v@[i - 1]));
    }
    assert(v@.take(v.len() as int) == v@);
    s
}

} // verus!

verus! {

/// Unicode `White_Space`, the property `char::is_whitespace` tests.
pub open spec fn is_ws(c: char) -> bool {
    let u = c as u32;
    ||| 0x09 <= u <= 0x0D
    ||| u == 0x20
    ||| u == 0x85
    ||| u == 0xA0
    ||| u == 0x1680
    ||| 0x2000 <= u <= 0x200A
    ||| u == 0x2028
    ||| u == 0x2029
    ||| u == 0x202F
    ||| u == 0x205F
    ||| u == 0x3000
}

pub fn is_whitespace(c: char) -> (r: bool)
    ensures
        r == is_ws(c),
{
    let u = c as u32;
    (0x09 <= u && u <= 0x0D) || u == 0x20 || u == 0x85 || u == 0xA0 || u == 0x1680 || (0x2000
        <= u && u <= 0x200A) || u == 0x2028 || u == 0x2029 || u == 0x202F || u == 0x205F || u
        == 0x3000
}

/// `s` with its leading whitespace removed.
pub open spec fn trim_start(s: Seq<char>) -> Seq<char>
    decreases s.len(),
{
    if s.len() > 0 && is_ws(s[0]) {
        trim_start(s.drop_first())
    } else {
        s
    }
}

/// `s` with its trailing whitespace removed.
pub open spec fn trim_end(s: Seq<char>) -> Seq<char>
    decreases s.len(),
{
    if s.len() > 0 && is_ws(s.last()) {
        trim_end(s.drop_last())
    } else {
        s
    }
}

/// `s` with leading and trailing whitespace removed, as `str::trim` does.
pub open spec fn trim(s: Seq<char>) -> Seq<char> {
    trim_end(trim_start(s))
}

pub proof fn lemma_trim_start_shape(s: Seq<char>)
    ensures
        trim_start(s).is_suffix_of(s),
        trim_start(s).len() > 0 ==> !is_ws(trim_start(s)[0]),
        forall|i: int| 0 <= i < s.len() - trim_start(s).len() ==> is_ws(#[trigger] s[i]),
    decreases s.len(),
{
    if s.len() > 0 && is_ws(s[0]) {
        lemma_trim_start_shape(s.drop_first());
        assert forall|i: int| 0 <= i < s.len() - trim_start(s).len() implies is_ws(#[trigger] s[i]) by {
            if i > 0 {
                assert(s[i] == s.drop_first()[i - 1]);
            }
        }
        let t = trim_start(s);
        assert(t.is_suffix_of(s)) by {
            assert forall|k: int| 0 <= k < t.len() implies t[k] == s[s.len() - t.len() + k] by {
                assert(t[k] == s.drop_first()[s.drop_first().len() - t.len() + k]);
            }
        }
    }
}

pub proof fn lemma_trim_end_shape(s: Seq<char>)
    ensures
        trim_end(s).is_prefix_of(s),
        trim_end(s).len() > 0 ==> !is_ws(trim_end(s).last()),
        forall|i: int| trim_end(s).len() <= i < s.len() ==> is_ws(#[trigger] s[i]),
    decreases s.len(),
{
    if s.len() > 0 && is_ws(s.last()) {
        lemma_trim_end_shape(s.drop_last());
        let t = trim_end(s);
        assert forall|i: int| t.len() <= i < s.len() implies is_ws(#[trigger] s[i]) by {
            if i < s.len() - 1 {
                assert(s[i] == s.drop_last()[i]);
            }
        }
        assert(t.is_prefix_of(s)) by {
            assert forall|k: int| 0 <= k < t.len() implies t[k] == s[k] by {
                assert(t[k] == s.drop_last()[k]);
            }
        }
    }
}

/// The characters of `v` without leading and trailing whitespace.
pub fn trim_chars(v: &Vec<char>) -> (r: Vec<char>)
    ensures
        r@ == trim(v@),
{
    let n = v.len();
    let mut i: usize = 0;
    assert(v@.skip(0) =~= v@);
    while i < n && is_whitespace(v[i])
        invariant
            i <= n,
            n == v.len(),
            trim_start(v@) == trim_start(v@.skip(i as int)),
        decreases n - i,
    {
        assert(v@.skip(i as int).drop_first() =~= v@.skip(i + 1));
        i = i + 1;
    }
    assert(trim_start(v@.skip(i as int)) == v@.skip(i as int));
    let mut j: usize = n;
    while j > i && is_whitespace(v[j - 1])
        invariant
            i <= j <= n,
            n == v.len(),
            trim_end(v@.skip(i as int)) == trim_end(v@.subrange(i as int, j as int)),
        decreases j,
    {
        assert(v@.subrange(i as int, j as int).drop_last() =~= v@.subrange(i as int, j - 1));
        j = j - 1;
    }
    assert(v@.skip(i as int) =~= v@.subrange(i as int, n as int));
    let mut r: Vec<char> = Vec::new();
    let mut k: usize = i;
    while k < j
        invariant
            i <= k <= j <= n,
            n == v.len(),
            r@ == v@.subrange(i as int, k as int),
        decreases j - k,
    {
        r.push(v[k]);
        k = k + 1;
        assert(r@ =~= v@.subrange(i as int, k as int));
    }
    r
}

/// The ASCII lower-case form of `c`; other characters are unchanged.
pub open spec fn lower_char(c: char) -> char {
    if 65 <= c as u32 <= 90 {
        ((c as u32) + 32) as char
    } else {
        c
    }
}

pub open spec fn lower(s: Seq<char>) -> Seq<char> {
    s.map_values(|c: char| lower_char(c))
}

pub fn to_ascii_lowercase(v: &Vec<char>) -> (r: Vec<char>)
    ensures
        r@ == lower(v@),
{
    let mut r: Vec<char> = Vec::new();
    let mut i: usize = 0;
    while i < v.len()
        invariant
            i <= v.len(),
            r@ == lower(v@.take(i as int)),
        decreases v.len() - i,
    {
        let c = v[i];
        let u = c as u32;
        let d = if 65 <= u && u <= 90 {
            let b = (u + 32) as u8;
            assert(b as u32 == u + 32);
            assert((b as char) as u32 == b as u32);
            b as char
        } else {
            c
        };
        assert(d == lower_char(c));
        r.push(d);
        i = i + 1;
        assert(r@ =~= lower(v@.take(i as int)));
    }
    assert(v@.take(v.len() as int) =~= v@);
    r
}

} // verus!

verus! {

/// The views of a sequence of character vectors.
pub open spec fn views(v: Seq<Vec<char>>) -> Seq<Seq<char>> {
    v.map_values(|p: Vec<char>| p@)
}

/// The pieces of `s` between occurrences of `sep`, as `str::split` yields them
/// (an empty `s` gives one empty piece).
pub open spec fn split(s: Seq<char>, sep: char) -> Seq<Seq<char>>
    decreases s.len(),
{
    if s.len() == 0 {
        seq![Seq::<char>::empty()]
    } else {
        let r = split(s.drop_last(), sep);
        if s.last() == sep {
            r.push(Seq::<char>::empty())
        } else {
            r.update(r.len() - 1, r.last().push(s.last()))
        }
    }
}

pub proof fn lemma_split_len(s: Seq<char>, sep: char)
    ensures
        split(s, sep).len() >= 1,
    decreases s.len(),
{
    if s.len() > 0 {
        lemma_split_len(s.drop_last(), sep);
    }
}

/// No piece of a split holds the separator.
pub proof fn lemma_split_pieces_free_of_sep(s: Seq<char>, sep: char)
    ensures
        forall|i: int| 0 <= i < split(s, sep).len() ==> !(#[trigger] split(s, sep)[i]).contains(sep),
    decreases s.len(),
{
    if s.len() > 0 {
        lemma_split_pieces_free_of_sep(s.drop_last(), sep);
        lemma_split_len(s.drop_last(), sep);
        let r = split(s.drop_last(), sep);
        if s.last() != sep {
            assert forall|i: int| 0 <= i < split(s, sep).len() implies !(#[trigger] split(s, sep)[i]).contains(sep) by {
                if i == r.len() - 1 {
                    let p = r.last().push(s.last());
                    assert(!r[r.len() - 1].contains(sep));
                    if p.contains(sep) {
                        let k = choose|k: int| 0 <= k < p.len() && p[k] == sep;
                        if k < p.len() - 1 {
                            assert(r.last()[k] == sep);
                        }
                    }
                }
            }
        }
    }
}

/// Appending characters free of `sep` extends the last piece.
pub proof fn lemma_split_append_free(x: Seq<char>, y: Seq<char>, sep: char)
    requires
        !y.contains(sep),
    ensures
        split(x + y, sep) == split(x, sep).update(
            split(x, sep).len() - 1,
            split(x, sep).last() + y,
        ),
    decreases y.len(),
{
    lemma_split_len(x, sep);
    if y.len() == 0 {
        assert(x + y =~= x);
        assert(split(x, sep).last() + y =~= split(x, sep).last());
        assert(split(x, sep).update(split(x, sep).len() - 1, split(x, sep).last()) =~= split(x, sep));
    } else {
        let y0 = y.drop_last();
        assert(!y0.contains(sep)) by {
            if y0.contains(sep) {
                let k = choose|k: int| 0 <= k < y0.len() && y0[k] == sep;
                assert(y[k] == sep);
            }
        }
        lemma_split_append_free(x, y0, sep);
        assert((x + y).drop_last() =~= x + y0);
        assert((x + y).last() == y.last());
        assert(y.last() != sep) by {
            assert(y[y.len() - 1] == y.last());
        }
        lemma_split_len(x + y0, sep);
        let sx = split(x, sep);
        let r = split(x + y0, sep);
        assert(r.len() == sx.len());
        assert(r.last() == sx.last() + y0);
        assert((sx.last() + y0).push(y.last()) =~= sx.last() + y);
        assert(split(x + y, sep) == r.update(r.len() - 1, r.last().push(y.last())));
        assert(split(x + y, sep) =~= split(x, sep).update(
            split(x, sep).len() - 1,
            split(x, sep).last() + y,
        ));
    }
}

/// A separator closes the last piece and opens an empty one.
pub proof fn lemma_split_append_sep(x: Seq<char>, sep: char)
    ensures
        split(x.push(sep), sep) == split(x, sep).push(Seq::<char>::empty()),
{
    assert(x.push(sep).drop_last() =~= x);
}

pub fn split_chars(v: &Vec<char>, sep: char) -> (r: Vec<Vec<char>>)
    ensures
        views(r@) == split(v@, sep),
{
    let mut done: Vec<Vec<char>> = Vec::new();
    let mut cur: Vec<char> = Vec::new();
    let mut i: usize = 0;
    assert(v@.take(0) =~= Seq::<char>::empty());
    assert(views(done@).push(cur@) =~= split(v@.take(0), sep));
    while i < v.len()
        invariant
            i <= v.len(),
            views(done@).push(cur@) == split(v@.take(i as int), sep),
        decreases v.len() - i,
    {
        let c = v[i];
        let ghost before = v@.take(i as int);
        assert(v@.take(i + 1).drop_last() =~= before);
        if c == sep {
            let ghost prev = done@;
            done.push(cur);
            cur = Vec::new();
            assert(views(done@) =~= views(prev).push(views(done@).last()));
            assert(views(done@).push(cur@) =~= split(v@.take(i + 1), sep));
        } else {
            cur.push(c);
            assert(views(done@).push(cur@) =~= split(v@.take(i + 1), sep));
        }
        i = i + 1;
    }
    assert(v@.take(v.len() as int) =~= v@);
    let ghost prev = done@;
    done.push(cur);
    assert(views(done@) =~= views(prev).push(views(done@).last()));
    done
}

/// A line without the `\r` of a `\r\n` ending.
pub open spec fn without_cr(p: Seq<char>) -> Seq<char> {
    if p.len() > 0 && p.last() == '\r' {
        p.drop_last()
    } else {
        p
    }
}

/// The lines of `s` as `str::lines` yields them: each piece that a `\n`
/// ends, without that `\n` or a `\r` before it, then the rest if it is not
/// empty.
pub open spec fn lines(s: Seq<char>) -> Seq<Seq<char>> {
    let pieces = split(s, '\n');
    let ended = pieces.drop_last().map_values(|p: Seq<char>| without_cr(p));
    if pieces.last().len() > 0 {
        ended.push(pieces.last())
    } else {
        ended
    }
}

/// The lines of `v`; see `lines`.
pub fn lines_of(v: &Vec<char>) -> (r: Vec<Vec<char>>)
    ensures
        views(r@) == lines(v@),
{
    let pieces = split_chars(v, '\n');
    proof {
        lemma_split_len(v@, '\n');
    }
    let n = pieces.len();
    let mut out: Vec<Vec<char>> = Vec::new();
    let mut i: usize = 0;
    while i + 1 < n
        invariant
            n == pieces@.len(),
            n >= 1,
            i + 1 <= n,
            views(pieces@) == split(v@, '\n'),
            views(out@) == split(v@, '\n').take(i as int).map_values(|p: Seq<char>| without_cr(p)),
        decreases n - i,
    {
        let p = &pieces[i];
        let mut line: Vec<char> = Vec::new();
        let len = p.len();
        let keep = if len > 0 && p[len - 1] == '\r' {
            len - 1
        } else {
            len
        };
        let mut j: usize = 0;
        while j < keep
            invariant
                keep <= p@.len(),
                j <= keep,
                line@ == p@.take(j as int),
            decreases keep - j,
        {
            line.push(p[j]);
            j = j + 1;
            assert(line@ =~= p@.take(j as int));
        }
        assert(views(pieces@)[i as int] == p@);
        assert(line@ =~= without_cr(p@));
        let ghost before = out@;
        out.push(line);
        assert(views(out@) =~= views(before).push(without_cr(p@)));
        assert(split(v@, '\n').take(i + 1).map_values(|q: Seq<char>| without_cr(q)) =~= split(v@, '\n').take(
            i as int,
        ).map_values(|q: Seq<char>| without_cr(q)).push(without_cr(split(v@, '\n')[i as int])));
        i = i + 1;
    }
    assert(split(v@, '\n').take(n - 1) =~= split(v@, '\n').drop_last());
    let last = &pieces[n - 1];
    assert(views(pieces@)[n - 1] == last@);
    if last.len() > 0 {
        let ghost before = out@;
        out.push(last.clone());
        assert(views(out@) =~= views(before).push(last@));
    }
    out
}

/// The non-empty pieces, in order.
pub open spec fn non_empty(ps: Seq<Seq<char>>) -> Seq<Seq<char>>
    decreases ps.len(),
{
    if ps.len() == 0 {
        Seq::empty()
    } else if ps.last().len() == 0 {
        non_empty(ps.drop_last())
    } else {
        non_empty(ps.drop_last()).push(ps.last())
    }
}

pub proof fn lemma_non_empty_all(ps: Seq<Seq<char>>)
    requires
        forall|i: int| 0 <= i < ps.len() ==> (#[trigger] ps[i]).len() > 0,
    ensures
        non_empty(ps) == ps,
    decreases ps.len(),
{
    if ps.len() > 0 {
        lemma_non_empty_all(ps.drop_last());
        assert(ps.drop_last().push(ps.last()) =~= ps);
    }
}

pub proof fn lemma_non_empty_shape(ps: Seq<Seq<char>>)
    ensures
        forall|i: int| 0 <= i < non_empty(ps).len() ==> (#[trigger] non_empty(ps)[i]).len() > 0,
        forall|i: int|
            0 <= i < non_empty(ps).len() ==> exists|j: int|
                0 <= j < ps.len() && ps[j] == #[trigger] non_empty(ps)[i],
    decreases ps.len(),
{
    if ps.len() > 0 {
        lemma_non_empty_shape(ps.drop_last());
        let q = non_empty(ps.drop_last());
        assert forall|i: int| 0 <= i < non_empty(ps).len() implies exists|j: int|
            0 <= j < ps.len() && ps[j] == #[trigger] non_empty(ps)[i] by {
            if i < q.len() {
                let j = choose|j: int| 0 <= j < ps.drop_last().len() && ps.drop_last()[j] == q[i];
                assert(ps[j] == non_empty(ps)[i]);
            } else {
                assert(ps[ps.len() - 1] == non_empty(ps)[i]);
            }
        }
    }
}

pub fn keep_non_empty(ps: Vec<Vec<char>>) -> (r: Vec<Vec<char>>)
    ensures
        views(r@) == non_empty(views(ps@)),
{
    let mut r: Vec<Vec<char>> = Vec::new();
    let n = ps.len();
    let mut i: usize = 0;
    while i < n
        invariant
            i <= n,
            n == ps.len(),
            views(r@) == non_empty(views(ps@.take(i as int))),
        decreases n - i,
    {
        let p = ps[i].clone();
        assert(views(ps@.take(i + 1)).drop_last() =~= views(ps@.take(i as int)));
        assert(views(ps@.take(i + 1)).last() == ps@[i as int]@);
        if p.len() > 0 {
            let ghost prev = r@;
            r.push(p);
            assert(views(r@) =~= views(prev).push(ps@[i as int]@));
        }
        i = i + 1;
    }
    assert(ps@.take(n as int) =~= ps@);
    r
}

/// Whether any character of `s` is whitespace.
pub open spec fn has_ws(s: Seq<char>) -> bool {
    exists|i: int| 0 <= i < s.len() && is_ws(#[trigger] s[i])
}

pub fn contains_whitespace(v: &Vec<char>) -> (r: bool)
    ensures
        r == has_ws(v@),
{
    let mut i: usize = 0;
    while i < v.len()
        invariant
            i <= v.len(),
            forall|j: int| 0 <= j < i ==> !is_ws(#[trigger] v@[j]),
        decreases v.len() - i,
    {
        if is_whitespace(v[i]) {
            return true;
        }
        i = i + 1;
    }
    false
}

/// `s` with every `from` replaced by `to`.
pub open spec fn replace_char(s: Seq<char>, from: char, to: char) -> Seq<char> {
    s.map_values(|c: char| if c == from { to } else { c })
}

pub fn replace_chars(v: &Vec<char>, from: char, to: char) -> (r: Vec<char>)
    ensures
        r@ == replace_char(v@, from, to),
{
    let mut r: Vec<char> = Vec::new();
    let mut i: usize = 0;
    while i < v.len()
        invariant
            i <= v.len(),
            r@ == replace_char(v@.take(i as int), from, to),
        decreases v.len() - i,
    {
        if v[i] == from {
            r.push(to);
        } else {
            r.push(v[i]);
        }
        i = i + 1;
        assert(r@ =~= replace_char(v@.take(i as int), from, to));
    }
    assert(v@.take(v.len() as int) =~= v@);
    r
}

} // verus!

verus! {

/// Append the characters of `s` to `v`.
pub fn push_str(v: &mut Vec<char>, s: &str)
    ensures
        final(v)@ == old(v)@ + s@,
{
    let cs = chars_of(s);
    let ghost start = v@;
    let mut i: usize = 0;
    while i < cs.len()
        invariant
            i <= cs.len(),
            cs@ == s@,
            v@ == start + cs@.take(i as int),
        decreases cs.len() - i,
    {
        v.push(cs[i]);
        i = i + 1;
        assert(v@ =~= start + cs@.take(i as int));
    }
    assert(cs@.take(cs.len() as int) =~= cs@);
}

/// Append the characters of `w` to `v`.
pub fn push_chars(v: &mut Vec<char>, w: &Vec<char>)
    ensures
        final(v)@ == old(v)@ + w@,
{
    let ghost start = v@;
    let mut i: usize = 0;
    while i < w.len()
        invariant
            i <= w.len(),
            v@ == start + w@.take(i as int),
        decreases w.len() - i,
    {
        v.push(w[i]);
        i = i + 1;
        assert(v@ =~= start + w@.take(i as int));
    }
    assert(w@.take(w.len() as int) =~= w@);
}

/// The pieces joined with `sep` between consecutive pieces.
pub open spec fn join(parts: Seq<Seq<char>>, sep: Seq<char>) -> Seq<char>
    decreases parts.len(),
{
    if parts.len() == 0 {
        Seq::empty()
    } else if parts.len() == 1 {
        parts[0]
    } else {
        join(parts.drop_last(), sep) + sep + parts.last()
    }
}

/// The index of the first element of `s` equal to `x`, or -1 if there is none.
pub open spec fn first_index<A>(s: Seq<A>, x: A) -> int
    decreases s.len(),
{
    if s.len() == 0 {
        -1
    } else if first_index(s.drop_last(), x) >= 0 {
        first_index(s.drop_last(), x)
    } else if s.last() == x {
        s.len() - 1
    } else {
        -1
    }
}

pub proof fn lemma_first_index<A>(s: Seq<A>, x: A)
    ensures
        -1 <= first_index(s, x) < s.len(),
        first_index(s, x) >= 0 ==> s[first_index(s, x)] == x,
        forall|j: int| 0 <= j < s.len() && (first_index(s, x) < 0 || j < first_index(s, x)) ==> s[j] != x,
        first_index(s, x) < 0 <==> !s.contains(x),
    decreases s.len(),
{
    if s.len() > 0 {
        lemma_first_index(s.drop_last(), x);
        assert forall|j: int| 0 <= j < s.len() && (first_index(s, x) < 0 || j < first_index(s, x)) implies s[j] != x by {
            if j < s.len() - 1 {
                assert(s[j] == s.drop_last()[j]);
            }
        }
        if first_index(s, x) < 0 {
            assert(!s.contains(x)) by {
                if s.contains(x) {
                    let k = choose|k: int| 0 <= k < s.len() && s[k] == x;
                }
            }
        } else {
            assert(s.contains(x)) by {
                assert(s[first_index(s, x)] == x);
            }
        }
    }
}

} // verus!

verus! {

/// The keys of an association list.
pub open spec fn keys<K, V>(s: Seq<(K, V)>) -> Seq<K> {
    s.map_values(|e: (K, V)| e.0)
}

/// The value an association list gives `k`: that of its first entry for `k`.
pub open spec fn lookup<K, V>(s: Seq<(K, V)>, k: K) -> Option<V> {
    let i = first_index(keys(s), k);
    if i < 0 {
        None
    } else {
        Some(s[i].1)
    }
}

/// The association list without its first entry for `k`.
pub open spec fn without<K, V>(s: Seq<(K, V)>, k: K) -> Seq<(K, V)> {
    let i = first_index(keys(s), k);
    if i < 0 {
        s
    } else {
        s.remove(i)
    }
}

/// `s` with every element equal to `x` dropped.
pub open spec fn drop_value<A>(s: Seq<A>, x: A) -> Seq<A>
    decreases s.len(),
{
    if s.len() == 0 {
        s
    } else if s.last() == x {
        drop_value(s.drop_last(), x)
    } else {
        drop_value(s.drop_last(), x).push(s.last())
    }
}

pub proof fn lemma_drop_value<A>(s: Seq<A>, x: A)
    ensures
        forall|q: A| drop_value(s, x).contains(q) <==> (s.contains(q) && q != x),
        s.no_duplicates() ==> drop_value(s, x).no_duplicates(),
    decreases s.len(),
{
    if s.len() > 0 {
        let d = s.drop_last();
        lemma_drop_value(d, x);
        let r = drop_value(d, x);
        assert(d.push(s.last()) =~= s);
        assert forall|q: A| drop_value(s, x).contains(q) <==> (s.contains(q) && q != x) by {
            lemma_seq_contains_push(d, s.last(), q);
            assert(s.contains(q) <==> (d.contains(q) || q == s.last()));
            assert(r.contains(q) <==> (d.contains(q) && q != x));
            if s.last() != x {
                lemma_seq_contains_push(r, s.last(), q);
                assert(drop_value(s, x) == r.push(s.last()));
            } else {
                assert(drop_value(s, x) == r);
            }
        }
        if s.no_duplicates() {
            assert(d.no_duplicates()) by {
                assert forall|i: int, j: int| 0 <= i < d.len() && 0 <= j < d.len() && i != j implies d[i] != d[j] by {
                    assert(d[i] == s[i] && d[j] == s[j]);
                }
            }
            if s.last() != x {
                assert(!d.contains(s.last())) by {
                    if d.contains(s.last()) {
                        let k = choose|k: int| 0 <= k < d.len() && d[k] == s.last();
                        assert(s[k] == s[s.len() - 1]);
                    }
                }
                let t = r.push(s.last());
                assert forall|i: int, j: int| 0 <= i < t.len() && 0 <= j < t.len() && i != j implies t[i] != t[j] by {
                    if i < r.len() && j < r.len() {
                        assert(t[i] == r[i] && t[j] == r[j]);
                    } else if i < r.len() {
                        assert(t[i] == r[i]);
                        assert(r.contains(r[i]));
                    } else if j < r.len() {
                        assert(t[j] == r[j]);
                        assert(r.contains(r[j]));
                    }
                }
            }
        }
    }
}

pub proof fn lemma_seq_contains_push<A>(s: Seq<A>, e: A, x: A)
    ensures
        s.push(e).contains(x) <==> (s.contains(x) || x == e),
{
    if s.contains(x) {
        let m = choose|m: int| 0 <= m < s.len() && s[m] == x;
        assert(s.push(e)[m] == x);
    }
    if x == e {
        assert(s.push(e)[s.len() as int] == x);
    }
    if s.push(e).contains(x) {
        let m = choose|m: int| 0 <= m < s.push(e).len() && s.push(e)[m] == x;
        if m < s.len() {
            assert(s[m] == x);
        }
    }
}

/// In a list whose keys are distinct, the entry for `q` is found at `i` exactly
/// when `i` holds `q`.
pub proof fn lemma_lookup_distinct<K, V>(s: Seq<(K, V)>, i: int)
    requires
        keys(s).no_duplicates(),
        0 <= i < s.len(),
    ensures
        first_index(keys(s), s[i].0) == i,
        lookup(s, s[i].0) == Some(s[i].1),
{
    lemma_first_index(keys(s), s[i].0);
    assert(keys(s)[i] == s[i].0);
    assert(keys(s).contains(s[i].0));
}

/// Lookups in a list with distinct keys after removing one key and then
/// appending an entry.
pub proof fn lemma_without_then_push<K, V>(s: Seq<(K, V)>, k: K, e: (K, V))
    requires
        keys(s).no_duplicates(),
        e.0 == k,
    ensures
        keys(without(s, k).push(e)).no_duplicates(),
        forall|q: K| #[trigger] lookup(without(s, k).push(e), q) == (if q == k { Some(e.1) } else { lookup(s, q) }),
        keys(without(s, k)).no_duplicates(),
        forall|q: K| #[trigger] lookup(without(s, k), q) == (if q == k { None } else { lookup(s, q) }),
        forall|q: K| keys(without(s, k)).contains(q) <==> (keys(s).contains(q) && q != k),
{
    let i = first_index(keys(s), k);
    lemma_first_index(keys(s), k);
    let w = without(s, k);
    assert(keys(w) == drop_value(keys(s), k) || true);
    // keys of w
    assert forall|a: int, b: int| 0 <= a < keys(w).len() && 0 <= b < keys(w).len() && a != b implies keys(w)[a] != keys(w)[b] by {
        if i >= 0 {
            let a2 = if a < i { a } else { a + 1 };
            let b2 = if b < i { b } else { b + 1 };
            assert(keys(w)[a] == keys(s)[a2]);
            assert(keys(w)[b] == keys(s)[b2]);
        } else {
            assert(keys(w)[a] == keys(s)[a]);
        }
    }
    assert forall|q: K| keys(w).contains(q) <==> (keys(s).contains(q) && q != k) by {
        if keys(w).contains(q) {
            let a = choose|a: int| 0 <= a < keys(w).len() && keys(w)[a] == q;
            if i >= 0 {
                let a2 = if a < i { a } else { a + 1 };
                assert(keys(s)[a2] == q);
                if q == k {
                    assert(a2 != i);
                    assert(keys(s)[i] == k);
                }
            } else {
                assert(keys(s)[a] == q);
            }
        }
        if keys(s).contains(q) && q != k {
            let a = choose|a: int| 0 <= a < keys(s).len() && keys(s)[a] == q;
            if i >= 0 {
                assert(a != i);
                let a2 = if a < i { a } else { a - 1 };
                assert(keys(w)[a2] == q);
            } else {
                assert(keys(w)[a] == q);
            }
        }
    }
    assert forall|q: K| #[trigger] lookup(w, q) == (if q == k { None } else { lookup(s, q) }) by {
        lemma_first_index(keys(w), q);
        lemma_first_index(keys(s), q);
        if q != k && keys(s).contains(q) {
            let j = first_index(keys(s), q);
            lemma_lookup_distinct(s, j);
            assert(keys(w).contains(q));
            let jw = first_index(keys(w), q);
            let j2 = if i >= 0 && jw >= i { jw + 1 } else { jw };
            assert(keys(w)[jw] == q);
            assert(s[j2].0 == q);
            assert(w[jw] == s[j2]);
            lemma_lookup_distinct(s, j2);
        }
    }
    let t = w.push(e);
    assert(keys(t) =~= keys(w).push(k));
    assert(!keys(w).contains(k));
    assert forall|a: int, b: int| 0 <= a < keys(t).len() && 0 <= b < keys(t).len() && a != b implies keys(t)[a] != keys(t)[b] by {
        if a < keys(w).len() && b < keys(w).len() {
            assert(keys(t)[a] == keys(w)[a] && keys(t)[b] == keys(w)[b]);
        } else if a < keys(w).len() {
            assert(keys(t)[a] == keys(w)[a]);
            assert(keys(w).contains(keys(w)[a]));
        } else if b < keys(w).len() {
            assert(keys(t)[b] == keys(w)[b]);
            assert(keys(w).contains(keys(w)[b]));
        }
    }
    assert forall|q: K| #[trigger] lookup(t, q) == (if q == k { Some(e.1) } else { lookup(s, q) }) by {
        if q == k {
            lemma_lookup_distinct(t, w.len() as int);
        } else {
            lemma_first_index(keys(t), q);
            lemma_first_index(keys(w), q);
            assert(keys(w) =~= keys(t).drop_last());
            assert(lookup(w, q) == (if q == k { None } else { lookup(s, q) }));
        }
    }
}


/// Whether `a` and `b` hold the same characters.
pub fn str_eq(a: &str, b: &str) -> (r: bool)
    ensures
        r == (a@ == b@),
{
    let v = chars_of(a);
    let w = chars_of(b);
    if v.len() != w.len() {
        return false;
    }
    let mut i: usize = 0;
    while i < v.len()
        invariant
            i <= v.len(),
            v.len() == w.len(),
            v@ == a@,
            w@ == b@,
            forall|j: int| 0 <= j < i ==> v@[j] == w@[j],
        decreases v.len() - i,
    {
        if v[i] != w[i] {
            return false;
        }
        i = i + 1;
    }
    assert(v@ =~= w@);
    true
}


/// The decimal digit for `d` (below 10).
pub open spec fn digit_char(d: int) -> char {
    (48 + d) as char
}

/// The decimal representation of `n`, without leading zeros.
pub open spec fn dec(n: nat) -> Seq<char>
    decreases n,
{
    if n < 10 {
        seq![digit_char(n as int)]
    } else {
        dec(n / 10).push(digit_char((n % 10) as int))
    }
}

/// The decimal representation of `i`, with a `-` before a negative value.
pub open spec fn signed_dec(i: int) -> Seq<char> {
    if i < 0 {
        seq!['-'] + dec((-i) as nat)
    } else {
        dec(i as nat)
    }
}

/// Append the decimal representation of `n` to `v`.
pub fn push_decimal(v: &mut Vec<char>, n: u64)
    ensures
        final(v)@ == old(v)@ + dec(n as nat),
    decreases n,
{
    if n >= 10 {
        push_decimal(v, n / 10);
    }
    let d: u8 = (n % 10) as u8;
    let b: u8 = 48 + d;
    assert((b as char) as u32 == b as u32);
    v.push(b as char);
}

/// Append the decimal representation of `i`, signed, to `v`.
pub fn push_signed_decimal(v: &mut Vec<char>, i: i64)
    ensures
        final(v)@ == old(v)@ + signed_dec(i as int),
{
    if i < 0 {
        v.push('-');
        let m: u64 = if i == i64::MIN {
            0x8000_0000_0000_0000
        } else {
            (-i) as u64
        };
        push_decimal(v, m);
        assert(old(v)@ + signed_dec(i as int) =~= old(v)@.push('-') + dec(m as nat));
    } else {
        push_decimal(v, i as u64);
    }
}


/// The entries of an association list whose value satisfies `p`, in order.
pub open spec fn keep<K, V>(s: Seq<(K, V)>, p: spec_fn(V) -> bool) -> Seq<(K, V)>
    decreases s.len(),
{
    if s.len() == 0 {
        s
    } else if p(s.last().1) {
        keep(s.drop_last(), p).push(s.last())
    } else {
        keep(s.drop_last(), p)
    }
}

pub proof fn lemma_keep<K, V>(s: Seq<(K, V)>, p: spec_fn(V) -> bool)
    ensures
        keep(s, p).len() <= s.len(),
        forall|e: (K, V)| #[trigger] keep(s, p).contains(e) <==> (s.contains(e) && p(e.1)),
        keys(s).no_duplicates() ==> keys(keep(s, p)).no_duplicates(),
    decreases s.len(),
{
    if s.len() > 0 {
        let d = s.drop_last();
        let r = keep(d, p);
        lemma_keep(d, p);
        assert(d.push(s.last()) =~= s);
        assert forall|e: (K, V)| #[trigger] keep(s, p).contains(e) <==> (s.contains(e) && p(e.1)) by {
            lemma_seq_contains_push(d, s.last(), e);
            if p(s.last().1) {
                lemma_seq_contains_push(r, s.last(), e);
            }
        }
        if keys(s).no_duplicates() {
            assert(keys(d) =~= keys(s).drop_last());
            assert(keys(d).no_duplicates()) by {
                assert forall|i: int, j: int| 0 <= i < keys(d).len() && 0 <= j < keys(d).len() && i != j implies keys(d)[i] != keys(d)[j] by {
                    assert(keys(d)[i] == keys(s)[i] && keys(d)[j] == keys(s)[j]);
                }
            }
            if p(s.last().1) {
                let t = r.push(s.last());
                assert(keys(t) =~= keys(r).push(s.last().0));
                assert(!keys(r).contains(s.last().0)) by {
                    if keys(r).contains(s.last().0) {
                        let k = choose|k: int| 0 <= k < keys(r).len() && keys(r)[k] == s.last().0;
                        assert(r.contains(r[k]));
                        assert(d.contains(r[k]));
                        let m = choose|m: int| 0 <= m < d.len() && d[m] == r[k];
                        assert(keys(s)[m] == keys(s)[s.len() - 1]);
                    }
                }
                assert forall|i: int, j: int| 0 <= i < keys(t).len() && 0 <= j < keys(t).len() && i != j implies keys(t)[i] != keys(t)[j] by {
                    if i < keys(r).len() && j < keys(r).len() {
                        assert(keys(t)[i] == keys(r)[i] && keys(t)[j] == keys(r)[j]);
                    } else if i < keys(r).len() {
                        assert(keys(t)[i] == keys(r)[i]);
                        assert(keys(r).contains(keys(r)[i]));
                    } else if j < keys(r).len() {
                        assert(keys(t)[j] == keys(r)[j]);
                        assert(keys(r).contains(keys(r)[j]));
                    }
                }
            }
        }
    }
}

} // verus!
