use vstd::prelude::*;
use vstd::string::*;

use crate::destination::string_views;
use crate::error::Error;
use crate::slurm::{SlurmNode, SlurmUser};
use crate::slurm_account::{Limits, SlurmAccount, SlurmLimit};
use crate::text::{
    chars_of, lines, lines_of, push_str, split, split_chars, str_eq, string_of, trim, trim_chars, views,
};

verus! {

broadcast use vstd::string::group_string_axioms;

/// The Slurm commands an agent runs, each possibly several words (such as
/// `docker exec slurmctld sacctmgr`).
#[derive(Debug)]
pub struct SlurmRunner {
    pub sacct: String,
    pub sacctmgr: String,
    pub scontrol: String,
    pub scancel: String,
}

impl Default for SlurmRunner {
    fn default() -> (r: Self)
        ensures
            r.sacct@ == "sacct"@,
            r.sacctmgr@ == "sacctmgr"@,
            r.scontrol@ == "scontrol"@,
            r.scancel@ == "scancel"@,
    {
        SlurmRunner {
            sacct: String::from_str("sacct"),
            sacctmgr: String::from_str("sacctmgr"),
            scontrol: String::from_str("scontrol"),
            scancel: String::from_str("scancel"),
        }
    }
}

/// The words `shlex::split` reads from `s`, quoting as a POSIX shell does,
/// or `None` where it finds the text malformed.
pub uninterp spec fn shell_words(s: Seq<char>) -> Option<Seq<Seq<char>>>;

/// Calls `shlex::split`: the words are whatever it splits `s` into, and
/// `None` is what it gives for text it finds malformed (such as an unclosed
/// quote).
#[verifier::external_body]
pub(crate) fn shell_split(s: &str) -> (r: Option<Vec<String>>)
    ensures
        match r {
            Some(v) => shell_words(s@) == Some(string_views(v@)),
            None => shell_words(s@) is None,
        },
{
    shlex::split(s)
}

/// The words that are not blank, in order.
pub open spec fn non_blank(s: Seq<Seq<char>>) -> Seq<Seq<char>>
    decreases s.len(),
{
    if s.len() == 0 {
        s
    } else if trim(s.last()).len() == 0 {
        non_blank(s.drop_last())
    } else {
        non_blank(s.drop_last()).push(s.last())
    }
}

impl SlurmRunner {
    pub fn sacct(&self) -> (r: &str)
        ensures
            r@ == self.sacct@,
    {
        self.sacct.as_str()
    }

    pub fn sacctmgr(&self) -> (r: &str)
        ensures
            r@ == self.sacctmgr@,
    {
        self.sacctmgr.as_str()
    }

    pub fn scontrol(&self) -> (r: &str)
        ensures
            r@ == self.scontrol@,
    {
        self.scontrol.as_str()
    }

    pub fn scancel(&self) -> (r: &str)
        ensures
            r@ == self.scancel@,
    {
        self.scancel.as_str()
    }

    /// The command a command type names, if it names one.
    pub open spec fn binary(&self, cmd_type: Seq<char>) -> Option<Seq<char>> {
        if cmd_type == "SACCTMGR"@ {
            Some(self.sacctmgr@)
        } else if cmd_type == "SCONTROL"@ {
            Some(self.scontrol@)
        } else if cmd_type == "SACCT"@ {
            Some(self.sacct@)
        } else if cmd_type == "SCANCEL"@ {
            Some(self.scancel@)
        } else {
            None
        }
    }

    /// The argument vector to run a command of type `cmd_type` (`SACCTMGR`,
    /// `SCONTROL`, `SACCT` or `SCANCEL`) with `args`: the command's words, as
    /// a shell would split them, then the arguments, leaving out any that are
    /// blank. Nothing is ever handed to a shell, so an argument cannot inject
    /// a command.
    pub fn build_command(&self, cmd_type: &str, args: Vec<String>) -> (r: Result<Vec<String>, Error>)
        ensures
            self.binary(cmd_type@) is None ==> (r matches Err(Error::Call(m)) && m@ == "Unknown command type: "@
                + cmd_type@ + ". Must be SACCTMGR, SCONTROL, SACCT, or SCANCEL"@),
            self.binary(cmd_type@) matches Some(b) ==> match shell_words(b) {
                Some(words) if words.len() > 0 => r matches Ok(c) && string_views(c@) == non_blank(
                    words + string_views(args@),
                ),
                _ => r matches Err(Error::Call(m)) && m@ == "Could not parse command binary: "@ + b,
            },
    {
        let binary: &str = if crate::text::str_eq(cmd_type, "SACCTMGR") {
            self.sacctmgr.as_str()
        } else if crate::text::str_eq(cmd_type, "SCONTROL") {
            self.scontrol.as_str()
        } else if crate::text::str_eq(cmd_type, "SACCT") {
            self.sacct.as_str()
        } else if crate::text::str_eq(cmd_type, "SCANCEL") {
            self.scancel.as_str()
        } else {
            let mut m: Vec<char> = Vec::new();
            push_str(&mut m, "Unknown command type: ");
            push_str(&mut m, cmd_type);
            push_str(&mut m, ". Must be SACCTMGR, SCONTROL, SACCT, or SCANCEL");
            assert(m@ =~= "Unknown command type: "@ + cmd_type@
                + ". Must be SACCTMGR, SCONTROL, SACCT, or SCANCEL"@);
            return Err(Error::Call(string_of(&m)));
        };
        let parts = match shell_split(binary) {
            Some(parts) => parts,
            None => Vec::new(),
        };
        if parts.len() == 0 {
            let mut m: Vec<char> = Vec::new();
            push_str(&mut m, "Could not parse command binary: ");
            push_str(&mut m, binary);
            return Err(Error::Call(string_of(&m)));
        }
        let ghost all = string_views(parts@) + string_views(args@);
        let mut command: Vec<String> = Vec::new();
        let mut i: usize = 0;
        let n = parts.len();
        let mut parts = parts;
        while i < n
            invariant
                i <= n,
                n == parts@.len(),
                all == string_views(parts@) + string_views(args@),
                string_views(command@) == non_blank(all.take(i as int)),
            decreases n - i,
        {
            let word = parts[i].clone();
            assert(all.take(i + 1).drop_last() =~= all.take(i as int));
            assert(all[i as int] == word@);
            if trim_chars(&chars_of(word.as_str())).len() > 0 {
                let ghost before = string_views(command@);
                command.push(word);
                assert(string_views(command@) =~= before.push(word@));
            }
            i = i + 1;
        }
        let mut j: usize = 0;
        while j < args.len()
            invariant
                j <= args@.len(),
                n == parts@.len(),
                all == string_views(parts@) + string_views(args@),
                string_views(command@) == non_blank(all.take(n + j)),
            decreases args@.len() - j,
        {
            let word = args[j].clone();
            assert(all.take(n + j + 1).drop_last() =~= all.take(n + j));
            assert(all[n + j] == word@);
            if trim_chars(&chars_of(word.as_str())).len() > 0 {
                let ghost before = string_views(command@);
                command.push(word);
                assert(string_views(command@) =~= before.push(word@));
            }
            j = j + 1;
        }
        assert(all.take(n + args@.len()) =~= all);
        Ok(command)
    }
}


/// What one resource says of the project's limit: if the node has the
/// resource and Slurm holds a limit for it that is not the project's limit
/// times the node's amount, the node-seconds that limit allows.
pub open spec fn disagreement(amount: u64, project_seconds: u64, limit: Option<u64>) -> Option<u64> {
    match limit {
        Some(l) => if amount > 0 && amount * project_seconds != l {
            Some((l / amount) as u64)
        } else {
            None
        },
        None => None,
    }
}

/// The limit Slurm actually enforces, where it disagrees with the project's
/// own: the first resource, of cores, GPUs, memory and billing, whose limit
/// disagrees.
pub open spec fn enforced_limit(node: (u64, u64, u64, u64), project_seconds: u64, limits: Limits) -> Option<u64> {
    let c = disagreement(node.0, project_seconds, limits.0);
    let g = disagreement(node.1, project_seconds, limits.1);
    let m = disagreement(node.2, project_seconds, limits.2);
    let b = disagreement(node.3, project_seconds, limits.3);
    if c is Some {
        c
    } else if g is Some {
        g
    } else if m is Some {
        m
    } else {
        b
    }
}
/// Slurm holds a limit for a resource the node has that is not the project's
/// limit times the node's amount of it.
pub open spec fn limit_differs(amount: u64, project_seconds: u64, limit: Option<u64>) -> bool {
    limit matches Some(l) && amount > 0 && amount * project_seconds != l
}

/// The limit enforced is that of the first resource, of cores, GPUs, memory
/// and billing, whose Slurm limit differs from the project's, as node-seconds
/// (Slurm's limit divided by the node's amount); where none differs, the
/// project's limit stands and there is none.
pub proof fn law_the_first_differing_limit_is_enforced(node: (u64, u64, u64, u64), project_seconds: u64, limits: Limits)
    ensures
        limit_differs(node.0, project_seconds, limits.0) ==> enforced_limit(node, project_seconds, limits)
            == Some((limits.0.unwrap() / node.0) as u64),
        !limit_differs(node.0, project_seconds, limits.0) && limit_differs(node.1, project_seconds, limits.1)
            ==> enforced_limit(node, project_seconds, limits) == Some((limits.1.unwrap() / node.1) as u64),
        !limit_differs(node.0, project_seconds, limits.0) && !limit_differs(node.1, project_seconds, limits.1)
            && limit_differs(node.2, project_seconds, limits.2) ==> enforced_limit(node, project_seconds, limits)
            == Some((limits.2.unwrap() / node.2) as u64),
        !limit_differs(node.0, project_seconds, limits.0) && !limit_differs(node.1, project_seconds, limits.1)
            && !limit_differs(node.2, project_seconds, limits.2) && limit_differs(node.3, project_seconds, limits.3)
            ==> enforced_limit(node, project_seconds, limits) == Some((limits.3.unwrap() / node.3) as u64),
        !limit_differs(node.0, project_seconds, limits.0) && !limit_differs(node.1, project_seconds, limits.1)
            && !limit_differs(node.2, project_seconds, limits.2) && !limit_differs(node.3, project_seconds, limits.3)
            ==> enforced_limit(node, project_seconds, limits) is None,
{
}


fn disagreement_of(amount: u64, project_seconds: u64, limit: Option<u64>) -> (r: Option<u64>)
    requires
        limit is Some && amount > 0 ==> amount * project_seconds <= u64::MAX,
    ensures
        r == disagreement(amount, project_seconds, limit),
{
    match limit {
        Some(l) => {
            if amount > 0 && amount * project_seconds != l {
                Some(l / amount)
            } else {
                None
            }
        },
        None => None,
    }
}

/// Check the limits Slurm holds for an account (`limit`) against the
/// project's limit of `project_seconds` node-seconds on `node`, and give the
/// limit Slurm actually enforces where they disagree.
pub fn reconcile_limit(node: &SlurmNode, project_seconds: u64, limit: &SlurmLimit) -> (r: Option<u64>)
    requires
        limit@.2.0 is Some && node@.0 > 0 ==> node@.0 * project_seconds <= u64::MAX,
        limit@.2.1 is Some && node@.1 > 0 ==> node@.1 * project_seconds <= u64::MAX,
        limit@.2.2 is Some && node@.2 > 0 ==> node@.2 * project_seconds <= u64::MAX,
        limit@.2.3 is Some && node@.3 > 0 ==> node@.3 * project_seconds <= u64::MAX,
    ensures
        r == enforced_limit(node@, project_seconds, limit@.2),
{
    let c = disagreement_of(node.cpus(), project_seconds, limit.cpu_limit());
    if c.is_some() {
        return c;
    }
    let g = disagreement_of(node.gpus(), project_seconds, limit.gpu_limit());
    if g.is_some() {
        return g;
    }
    let m = disagreement_of(node.mem(), project_seconds, limit.mem_limit());
    if m.is_some() {
        return m;
    }
    disagreement_of(node.billing(), project_seconds, limit.billing_limit())
}

/// The cluster names in the output of `sacctmgr --parsable2 list
/// clusters`: the first `|`-separated column of each line.
pub open spec fn cluster_names(output: Seq<char>) -> Seq<Seq<char>> {
    lines(output).map_values(|l: Seq<char>| split(l, '|')[0])
}

/// The cluster to work on, given the clusters Slurm lists in `output` and
/// the cluster the agent was asked for: `None` to keep a requested cluster
/// that Slurm lists, or the first cluster Slurm lists where none was asked
/// for; an error where the requested cluster is not listed, or where none
/// was asked for and none is listed.
pub fn pick_cluster(output: &str, requested: Option<&str>) -> (r: Result<Option<String>, Error>)
    ensures
        match requested {
            Some(c) => if cluster_names(output@).contains(c@) {
                r matches Ok(None)
            } else {
                r matches Err(Error::Login(m)) && m@ == "Requested cluster not found"@
            },
            None => if cluster_names(output@).len() > 0 {
                r matches Ok(Some(n)) && n@ == cluster_names(output@)[0]
            } else {
                r matches Err(Error::Login(m)) && m@ == "sacctmgr reported no clusters at all - cannot pick a default"@
            },
        },
{
    let ls = lines_of(&chars_of(output));
    let ghost names = cluster_names(output@);
    let mut clusters: Vec<Vec<char>> = Vec::new();
    let mut i: usize = 0;
    while i < ls.len()
        invariant
            i <= ls@.len(),
            views(ls@) == lines(output@),
            names == cluster_names(output@),
            views(clusters@) == names.take(i as int),
        decreases ls@.len() - i,
    {
        let columns = split_chars(&ls[i], '|');
        proof {
            crate::text::lemma_split_len(ls@[i as int]@, '|');
        }
        let ghost before = clusters@;
        clusters.push(columns[0].clone());
        assert(views(ls@)[i as int] == ls@[i as int]@);
        assert(views(columns@)[0] == columns@[0]@);
        assert(views(clusters@) =~= views(before).push(columns@[0]@));
        assert(names.take(i + 1) =~= names.take(i as int).push(names[i as int]));
        i = i + 1;
    }
    assert(names.take(ls@.len() as int) =~= names);
    match requested {
        Some(c) => {
            let mut j: usize = 0;
            while j < clusters.len()
                invariant
                    j <= clusters@.len(),
                    views(clusters@) == names,
                    names == cluster_names(output@),
                    requested == Some(c),
                    forall|k: int| 0 <= k < j ==> names[k] != c@,
                decreases clusters@.len() - j,
            {
                if crate::agent::chars_eq(&clusters[j], c) {
                    assert(views(clusters@)[j as int] == clusters@[j as int]@);
                    assert(names.contains(c@));
                    return Ok(None);
                }
                assert(views(clusters@)[j as int] == clusters@[j as int]@);
                j = j + 1;
            }
            assert(!names.contains(c@)) by {
                if names.contains(c@) {
                    let k = choose|k: int| 0 <= k < names.len() && names[k] == c@;
                }
            }
            Err(Error::Login(String::from_str("Requested cluster not found")))
        },
        None => {
            if clusters.len() == 0 {
                Err(Error::Login(String::from_str("sacctmgr reported no clusters at all - cannot pick a default")))
            } else {
                assert(views(clusters@)[0] == clusters@[0]@);
                Ok(Some(string_of(&clusters[0])))
            }
        },
    }
}

/// Whether some line of a command's output is not blank: what `sacct`
/// prints for each job it lists.
pub fn lists_anything(output: &str) -> (r: bool)
    ensures
        r == exists|k: int| 0 <= k < lines(output@).len() && trim(#[trigger] lines(output@)[k]).len() > 0,
{
    let ls = lines_of(&chars_of(output));
    let mut i: usize = 0;
    while i < ls.len()
        invariant
            i <= ls@.len(),
            views(ls@) == lines(output@),
            forall|k: int| 0 <= k < i ==> trim(#[trigger] lines(output@)[k]).len() == 0,
        decreases ls@.len() - i,
    {
        assert(views(ls@)[i as int] == ls@[i as int]@);
        if trim_chars(&ls[i]).len() > 0 {
            assert(trim(lines(output@)[i as int]).len() > 0);
            return true;
        }
        i = i + 1;
    }
    false
}

/// Whether what adding a project does is in place, given the account Slurm
/// holds for it (if any) and this agent's cluster: the account exists and,
/// where this agent manages it, is attached to the cluster. An account this
/// agent does not manage is left alone, so there is nothing to add.
pub fn account_is_in_place(account: Option<&SlurmAccount>, cluster: &str) -> (r: bool)
    ensures
        r == match account {
            None => false,
            Some(a) => a@.2 != "openportal"@ || a@.4.contains(cluster@),
        },
{
    match account {
        None => false,
        Some(a) => !a.is_managed() || a.in_cluster(cluster),
    }
}

/// Whether what adding a user does is in place, given the user Slurm holds
/// (if any), the project's account and this agent's cluster: the user
/// exists, defaults to the account, and is associated with it on the
/// cluster.
pub fn user_is_in_place(user: Option<&SlurmUser>, account: &str, cluster: &str) -> (r: bool)
    ensures
        r == match user {
            None => false,
            Some(u) => u@.1 == Some(account@) && exists|k: int|
                0 <= k < u@.2.len() && (#[trigger] u@.2[k]).1 == account@ && u@.2[k].2 == cluster@,
        },
{
    let u = match user {
        None => return false,
        Some(u) => u,
    };
    let defaults = match u.default_account() {
        Some(d) => str_eq(d.as_str(), account),
        None => false,
    };
    if !defaults {
        return false;
    }
    let associations = u.associations();
    let mut i: usize = 0;
    while i < associations.len()
        invariant
            i <= associations@.len(),
            user == Some(u),
            u@.1 == Some(account@),
            crate::slurm::association_views(associations@) == u@.2,
            forall|k: int| 0 <= k < i ==> !((#[trigger] u@.2[k]).1 == account@ && u@.2[k].2 == cluster@),
        decreases associations@.len() - i,
    {
        assert(u@.2[i as int] == associations@[i as int]@);
        if str_eq(associations[i].account(), account) && str_eq(associations[i].cluster(), cluster) {
            return true;
        }
        i = i + 1;
    }
    false
}

/// Whether to cancel the pending jobs of the account `name`, given the
/// account Slurm holds under that name (if any): only an account this agent
/// manages has its jobs cancelled; one that does not exist has nothing to
/// cancel; one that someone else manages is refused.
pub fn project_cancel_allowed(name: &str, account: Option<&SlurmAccount>) -> (r: Result<bool, Error>)
    ensures
        match account {
            None => r == Ok::<bool, Error>(false),
            Some(a) => if a@.2 == "openportal"@ {
                r == Ok::<bool, Error>(true)
            } else {
                r matches Err(Error::UnmanagedGroup(m)) && m@ == "Cannot cancel jobs for Slurm account '"@ + name@
                    + "' - it is not managed by OpenPortal"@
            },
        },
{
    match account {
        None => Ok(false),
        Some(a) => if a.is_managed() {
            Ok(true)
        } else {
            let mut m: Vec<char> = Vec::new();
            push_str(&mut m, "Cannot cancel jobs for Slurm account '");
            push_str(&mut m, name);
            push_str(&mut m, "' - it is not managed by OpenPortal");
            Err(Error::UnmanagedGroup(string_of(&m)))
        },
    }
}

/// Whether to cancel the pending jobs of the user `name`: `managed` is
/// `None` where Slurm holds no such user, and otherwise whether any account
/// the user is associated with is one this agent manages. Only such a
/// user has their jobs cancelled; one that does not exist has nothing to
/// cancel; any other is refused.
pub fn user_cancel_allowed(name: &str, managed: Option<bool>) -> (r: Result<bool, Error>)
    ensures
        match managed {
            None => r == Ok::<bool, Error>(false),
            Some(true) => r == Ok::<bool, Error>(true),
            Some(false) => r matches Err(Error::UnmanagedGroup(m)) && m@ == "Cannot cancel jobs for Slurm user '"@
                + name@ + "' - they are not managed by OpenPortal"@,
        },
{
    match managed {
        None => Ok(false),
        Some(true) => Ok(true),
        Some(false) => {
            let mut m: Vec<char> = Vec::new();
            push_str(&mut m, "Cannot cancel jobs for Slurm user '");
            push_str(&mut m, name);
            push_str(&mut m, "' - they are not managed by OpenPortal");
            Err(Error::UnmanagedGroup(string_of(&m)))
        },
    }
}

/// The part of the day from `day_start` to `day_end` that can be reported at
/// `now` (seconds since the UNIX epoch): none for a day that has not begun,
/// else from its start to its end or to now, whichever is earlier.
pub open spec fn reportable_window(day_start: i64, day_end: i64, now: i64) -> Option<(i64, i64)> {
    if day_start > now {
        None
    } else if now < day_end {
        Some((day_start, now))
    } else {
        Some((day_start, day_end))
    }
}

/// The window of a daily report; see `reportable_window`. A day in the
/// future has an empty report.
pub fn report_window(day_start: i64, day_end: i64, now: i64) -> (r: Option<(i64, i64)>)
    ensures
        r == reportable_window(day_start, day_end, now),
{
    if day_start > now {
        None
    } else if now < day_end {
        Some((day_start, now))
    } else {
        Some((day_start, day_end))
    }
}

} // verus!
