use vstd::prelude::*;

use crate::text::{chars_of, first_index, lemma_first_index, string_of, trim, trim_chars};

verus! {

/// `value` cut to fit a column `width` characters wide: unchanged if it fits,
/// else its first `width - 1` characters followed by `~`.
pub open spec fn elided(value: Seq<char>, width: nat) -> Seq<char> {
    if value.len() <= width {
        value
    } else {
        value.take(if width == 0 { 0 } else { width - 1 }).push('~')
    }
}

/// Trim a name to fit its column, marking that it was trimmed.
pub fn elide(value: &str, width: usize) -> (r: String)
    ensures
        r@ == elided(value@, width as nat),
{
    let v = chars_of(value);
    if v.len() <= width {
        return string_of(&v);
    }
    let keep: usize = if width == 0 { 0 } else { width - 1 };
    let mut out: Vec<char> = Vec::new();
    let mut i: usize = 0;
    while i < keep
        invariant
            i <= keep < v.len(),
            out@ == v@.take(i as int),
        decreases keep - i,
    {
        out.push(v[i]);
        i = i + 1;
        assert(out@ =~= v@.take(i as int));
    }
    out.push('~');
    string_of(&out)
}

/// The row a table cell is written into.
pub fn out_cell(row: &mut String) -> (r: &mut String)
    ensures
        *r == *old(row),
        *final(row) == *final(r),
{
    row
}


/// An elided name never overflows a column at least one character wide, and
/// a name that fits is left as it is.
pub proof fn law_elided_fits_column(value: Seq<char>, width: nat)
    requires
        width >= 1,
    ensures
        elided(value, width).len() <= width,
        value.len() <= width ==> elided(value, width) == value,
        value.len() > width ==> elided(value, width).last() == '~',
{
}

/// The project identifier text an account name `portal.project` stands for:
/// `project.portal`, the trimmed name being split at its first dot. An account
/// of any other shape (no dot, an empty portal or project, or a project that
/// itself holds a dot) is not one this agent made, and stands for none.
pub open spec fn account_project_text(account: Seq<char>) -> Option<Seq<char>> {
    let t = trim(account);
    let i = first_index(t, '.');
    if i < 0 {
        None
    } else {
        let portal = t.take(i);
        let project = t.skip(i + 1);
        if portal.len() == 0 || project.len() == 0 || project.contains('.') {
            None
        } else {
            Some(project + seq!['.'] + portal)
        }
    }
}

/// The text of the project an account belongs to; see
/// `account_project_text`.
pub fn project_of_account(account: &str) -> (r: Option<String>)
    ensures
        match account_project_text(account@) {
            Some(p) => r matches Some(s) && s@ == p,
            None => r is None,
        },
{
    let t = trim_chars(&chars_of(account));
    let mut i: usize = 0;
    while i < t.len()
        invariant
            i <= t@.len(),
            t@ == trim(account@),
            forall|k: int| 0 <= k < i ==> t@[k] != '.',
        decreases t@.len() - i,
    {
        if t[i] == '.' {
            proof {
                lemma_first_index(t@, '.');
            }
            assert(first_index(t@, '.') == i as int);
            if i == 0 {
                return None;
            }
            let mut out: Vec<char> = Vec::new();
            let mut j: usize = i + 1;
            while j < t.len()
                invariant
                    0 < i < j <= t@.len(),
                    t@ == trim(account@),
                    first_index(t@, '.') == i as int,
                    out@ == t@.subrange(i + 1, j as int),
                    forall|k: int| i + 1 <= k < j ==> t@[k] != '.',
                decreases t@.len() - j,
            {
                if t[j] == '.' {
                    assert(t@.skip(i + 1)[j - i - 1] == '.');
                    return None;
                }
                out.push(t[j]);
                j = j + 1;
                assert(out@ =~= t@.subrange(i + 1, j as int));
            }
            assert(t@.subrange(i + 1, t@.len() as int) =~= t@.skip(i + 1));
            if out.len() == 0 {
                return None;
            }
            let ghost project = t@.skip(i + 1);
            assert(!project.contains('.')) by {
                if project.contains('.') {
                    let k = choose|k: int| 0 <= k < project.len() && #[trigger] project[k] == '.';
                    assert(t@[k + i + 1] == '.');
                }
            }
            out.push('.');
            let mut k: usize = 0;
            let ghost head = out@;
            while k < i
                invariant
                    k <= i < t@.len(),
                    out@ == head + t@.take(k as int),
                decreases i - k,
            {
                out.push(t[k]);
                k = k + 1;
                assert(out@ =~= head + t@.take(k as int));
            }
            assert(t@.subrange(i + 1, t@.len() as int) =~= t@.skip(i + 1));
            assert(out@ =~= t@.skip(i + 1) + seq!['.'] + t@.take(i as int));
            return Some(string_of(&out));
        }
        i = i + 1;
    }
    proof {
        lemma_first_index(t@, '.');
    }
    None
}

} // verus!
