//! What MEGA cloud sync decides: the remote folder of a song, the MEGAcmd
//! login command, how MEGAcmd's output is read, and which remote songs have
//! no local copy.
use vstd::prelude::*;

use crate::settings::MegaSettings;
use crate::text::{
    chars_eq, chars_of, lines, lines_chars, starts_with, starts_with_chars, string_from_chars, trim,
    trim_chars, trim_end_by,
};
use crate::word_timing::join;
use vstd::string::StringExecFns;

verus! {

#[derive(Debug, Clone)]
pub struct CloudStatus {
    pub available: bool,
    pub logged_in: bool,
    pub account: Option<String>,
    /// Binary path found, for debugging.
    pub path: Option<String>,
}

/// Status reported to the UI from the MEGAcmd binary found (if any) and the
/// account it is logged in with (if any); without a binary nothing else counts.
pub fn cloud_status(path: Option<String>, account: Option<String>) -> (r: CloudStatus)
    ensures
        path is None ==> r.available == false && r.logged_in == false && r.account is None
            && r.path is None,
        path is Some ==> r.available && r.logged_in == account is Some && r.account == account
            && r.path == path,
{
    if path.is_none() {
        return CloudStatus { available: false, logged_in: false, account: None, path: None };
    }
    let logged_in = account.is_some();
    CloudStatus { available: true, logged_in, account, path }
}

// ───────────── paths ─────────────

/// Result of `Path::file_name` on a path given as text: its last component,
/// `None` when the path ends in `..` or has no name.
pub uninterp spec fn path_file_name(p: Seq<char>) -> Option<Seq<char>>;

/// `Path::new(p).file_name()`, as text (a `&str` path is valid UTF-8, so the
/// conversion loses nothing).
#[verifier::external_body]
fn file_name_of(p: &str) -> (r: Option<String>)
    ensures
        match r {
            Some(n) => path_file_name(p@) == Some(n@),
            None => path_file_name(p@) is None,
        },
{
    std::path::Path::new(p).file_name().map(|n| n.to_string_lossy().into_owned())
}

pub open spec fn safe_name_from_dir_spec(song_dir: Seq<char>) -> Seq<char> {
    match path_file_name(song_dir) {
        Some(n) => n,
        None => "unknown"@,
    }
}

/// The song's folder name (its last path component), `unknown` without one.
pub fn safe_name_from_dir(song_dir: &str) -> (r: String)
    ensures
        r@ == safe_name_from_dir_spec(song_dir@),
{
    match file_name_of(song_dir) {
        Some(n) => n,
        None => String::from_str("unknown"),
    }
}

/// Remote folder holding a song: `/ColognaKaraoke/<folder name>`.
pub open spec fn remote_path_spec(song_dir: Seq<char>) -> Seq<char> {
    "/ColognaKaraoke/"@ + safe_name_from_dir_spec(song_dir)
}

pub fn remote_path_for(song_dir: &str) -> (r: String)
    ensures
        r@ == remote_path_spec(song_dir@),
{
    let name = safe_name_from_dir(song_dir);
    String::from_str("/ColognaKaraoke/").concat(name.as_str())
}

// ───────────── MEGAcmd ─────────────

pub open spec fn arg_views(v: Seq<String>) -> Seq<Seq<char>> {
    v.map_values(|s: String| s@)
}

/// Arguments of `mega-exec login`: email and password, then the 2FA code
/// when one is set; an error when the account is not configured.
pub open spec fn login_args_spec(mega: MegaSettings) -> Result<Seq<Seq<char>>, Seq<char>> {
    match mega.email {
        None => Err("Email MEGA non configurata"@),
        Some(email) => match mega.password {
            None => Err("Password MEGA non configurata"@),
            Some(password) => match mega.mfa {
                Some(mfa) if mfa@.len() > 0 => Ok(seq!["login"@, email@, password@, mfa@]),
                _ => Ok(seq!["login"@, email@, password@]),
            },
        },
    }
}

pub fn login_args(mega: &MegaSettings) -> (r: Result<Vec<String>, String>)
    ensures
        match login_args_spec(*mega) {
            Ok(args) => r matches Ok(v) && arg_views(v@) == args,
            Err(msg) => r matches Err(m) && m@ == msg,
        },
{
    let email = match &mega.email {
        Some(e) => e,
        None => {
            return Err(String::from_str("Email MEGA non configurata"));
        },
    };
    let password = match &mega.password {
        Some(p) => p,
        None => {
            return Err(String::from_str("Password MEGA non configurata"));
        },
    };
    let mut args: Vec<String> = Vec::new();
    args.push(String::from_str("login"));
    args.push(email.clone());
    args.push(password.clone());
    match &mega.mfa {
        Some(m) => {
            if !m.as_str().is_empty() {
                args.push(m.clone());
            }
        },
        None => {},
    }
    assert(arg_views(args@) =~= login_args_spec(*mega)->Ok_0);
    Ok(args)
}

/// Outcome of a MEGAcmd run: its trimmed output on success; on failure the
/// trimmed error output, or the output when there is no error text.
pub open spec fn mega_outcome_spec(success: bool, stdout: Seq<char>, stderr: Seq<char>) -> Result<
    Seq<char>,
    Seq<char>,
> {
    if success {
        Ok(trim(stdout))
    } else if trim(stderr).len() == 0 {
        Err(trim(stdout))
    } else {
        Err(trim(stderr))
    }
}

pub fn mega_outcome(success: bool, stdout: &str, stderr: &str) -> (r: Result<String, String>)
    ensures
        match mega_outcome_spec(success, stdout@, stderr@) {
            Ok(s) => r matches Ok(o) && o@ == s,
            Err(s) => r matches Err(e) && e@ == s,
        },
{
    let out = string_from_chars(&trim_chars(&chars_of(stdout)));
    let err = string_from_chars(&trim_chars(&chars_of(stderr)));
    if success {
        Ok(out)
    } else if err.as_str().is_empty() {
        Err(out)
    } else {
        Err(err)
    }
}

/// Prefix `whoami` may put before the address.
pub open spec fn account_prefix() -> Seq<char> {
    "Account e-mail: "@
}

/// `s` with every leading copy of a non-empty `p` removed.
pub open spec fn strip_prefixes(s: Seq<char>, p: Seq<char>) -> Seq<char>
    decreases s.len(),
{
    if p.len() > 0 && starts_with(s, p) {
        strip_prefixes(s.skip(p.len() as int), p)
    } else {
        s
    }
}

/// Account reported by `whoami`: its last line (the whole output when it has
/// no line), trimmed, without the `Account e-mail: ` prefix.
pub open spec fn account_from_whoami_spec(out: Seq<char>) -> Seq<char> {
    let ls = lines(out);
    let last = if ls.len() > 0 {
        ls.last()
    } else {
        out
    };
    strip_prefixes(trim(last), account_prefix())
}

pub fn account_from_whoami(out: &str) -> (r: String)
    ensures
        r@ == account_from_whoami_spec(out@),
{
    let chars = chars_of(out);
    let ls = lines_chars(&chars);
    let last = if ls.len() > 0 {
        trim_chars(&ls[ls.len() - 1])
    } else {
        trim_chars(&chars)
    };
    let prefix = chars_of("Account e-mail: ");
    let mut cur = last;
    while cur.len() >= prefix.len() && starts_with_chars(&cur, &prefix)
        invariant
            prefix@ == account_prefix(),
            strip_prefixes(cur@, prefix@) == account_from_whoami_spec(out@),
        decreases cur@.len(),
    {
        proof {
            reveal_strlit("Account e-mail: ");
        }
        let mut rest: Vec<char> = Vec::new();
        let mut i: usize = prefix.len();
        while i < cur.len()
            invariant
                prefix@.len() <= i <= cur@.len(),
                rest@ == cur@.subrange(prefix@.len() as int, i as int),
            decreases cur@.len() - i,
        {
            rest.push(cur[i]);
            i += 1;
        }
        assert(rest@ =~= cur@.skip(prefix@.len() as int));
        cur = rest;
    }
    proof {
        reveal_strlit("Account e-mail: ");
    }
    string_from_chars(&cur)
}

pub open spec fn slash() -> spec_fn(char) -> bool {
    |c: char| c == '/'
}

/// A line of `mega-exec ls`: trimmed, without trailing slashes.
pub open spec fn listed_name(line: Seq<char>) -> Seq<char> {
    trim_end_by(trim(line), slash())
}

pub open spec fn listed_names_upto(ls: Seq<Seq<char>>, n: int) -> Seq<Seq<char>>
    decreases n,
{
    if n <= 0 {
        seq![]
    } else {
        let prev = listed_names_upto(ls, n - 1);
        let name = listed_name(ls[n - 1]);
        if name.len() > 0 {
            prev.push(name)
        } else {
            prev
        }
    }
}

/// The folder names in a `mega-exec ls` listing, blank lines dropped.
pub open spec fn remote_names_spec(output: Seq<char>) -> Seq<Seq<char>> {
    listed_names_upto(lines(output), lines(output).len() as int)
}

fn strip_trailing_slashes(v: &Vec<char>) -> (r: Vec<char>)
    ensures
        r@ == trim_end_by(v@, slash()),
{
    let mut j: usize = v.len();
    assert(v@.take(v@.len() as int) =~= v@);
    while j > 0 && v[j - 1] == '/'
        invariant
            j <= v@.len(),
            trim_end_by(v@.take(j as int), slash()) == trim_end_by(v@, slash()),
        decreases j,
    {
        assert(v@.take(j as int).drop_last() =~= v@.take(j - 1));
        j -= 1;
    }
    let mut r: Vec<char> = Vec::new();
    let mut k: usize = 0;
    while k < j
        invariant
            k <= j <= v@.len(),
            r@ == v@.take(k as int),
        decreases j - k,
    {
        r.push(v[k]);
        assert(v@.take(k + 1) =~= v@.take(k as int).push(v@[k as int]));
        k += 1;
    }
    proof {
        let t = v@.take(j as int);
        assert(r@ == t);
        if t.len() > 0 {
            assert(t.last() != '/');
        }
        assert(trim_end_by(t, slash()) == t);
    }
    r
}

pub fn remote_song_names(output: &str) -> (r: Vec<String>)
    ensures
        arg_views(r@) == remote_names_spec(output@),
{
    let chars = chars_of(output);
    let ls = lines_chars(&chars);
    let ghost spec_ls = lines(output@);
    let mut out: Vec<String> = Vec::new();
    let mut i: usize = 0;
    while i < ls.len()
        invariant
            i <= ls@.len() == spec_ls.len(),
            spec_ls == lines(output@),
            forall|k: int| 0 <= k < ls@.len() ==> (#[trigger] ls@[k])@ == spec_ls[k],
            arg_views(out@) == listed_names_upto(spec_ls, i as int),
        decreases ls@.len() - i,
    {
        let name = strip_trailing_slashes(&trim_chars(&ls[i]));
        assert(name@ == listed_name(spec_ls[i as int]));
        if name.len() > 0 {
            let ghost before = out@;
            out.push(string_from_chars(&name));
            assert(arg_views(out@) =~= arg_views(before).push(name@));
        }
        i += 1;
    }
    out
}

pub open spec fn orphans_upto(remote: Seq<Seq<char>>, local: Seq<Seq<char>>, n: int) -> Seq<Seq<char>>
    decreases n,
{
    if n <= 0 {
        seq![]
    } else {
        let prev = orphans_upto(remote, local, n - 1);
        if local.contains(remote[n - 1]) {
            prev
        } else {
            prev.push(remote[n - 1])
        }
    }
}

/// Remote songs that have no local folder of the same name, in listing order.
pub fn orphan_songs(remote: Vec<String>, local: &Vec<String>) -> (r: Vec<String>)
    ensures
        arg_views(r@) == orphans_upto(arg_views(remote@), arg_views(local@), remote@.len() as int),
{
    let ghost rv = arg_views(remote@);
    let ghost lv = arg_views(local@);
    let mut out: Vec<String> = Vec::new();
    let mut i: usize = 0;
    while i < remote.len()
        invariant
            i <= remote@.len() == rv.len(),
            rv == arg_views(remote@),
            lv == arg_views(local@),
            arg_views(out@) == orphans_upto(rv, lv, i as int),
        decreases remote@.len() - i,
    {
        let mut found = false;
        let mut k: usize = 0;
        while k < local.len()
            invariant
                k <= local@.len() == lv.len(),
                lv == arg_views(local@),
                i < remote@.len() == rv.len(),
                rv == arg_views(remote@),
                found <==> exists|j: int| 0 <= j < k && lv[j] == rv[i as int],
            decreases local@.len() - k,
        {
            if local[k] == remote[i] {
                found = true;
            }
            assert(local@[k as int]@ == lv[k as int]);
            assert(remote@[i as int]@ == rv[i as int]);
            k += 1;
        }
        if !found {
            let ghost before = out@;
            out.push(remote[i].clone());
            assert(arg_views(out@) =~= arg_views(before).push(rv[i as int]));
        }
        i += 1;
    }
    out
}

/// Outcome of syncing every song: the upload errors joined with `; `, if any.
pub fn sync_all_outcome(errors: &Vec<String>) -> (r: Result<(), String>)
    ensures
        errors@.len() == 0 ==> r is Ok,
        errors@.len() > 0 ==> (r matches Err(m) && m@ == join(arg_views(errors@), "; "@)),
{
    if errors.len() == 0 {
        return Ok(());
    }
    let mut msg = errors[0].clone();
    let mut i: usize = 1;
    while i < errors.len()
        invariant
            1 <= i <= errors@.len(),
            msg@ == join(arg_views(errors@.take(i as int)), "; "@),
        decreases errors@.len() - i,
    {
        proof {
            assert(arg_views(errors@.take(i + 1)).drop_last() =~= arg_views(errors@.take(i as int)));
        }
        msg = msg.concat("; ").concat(errors[i].as_str());
        i += 1;
    }
    assert(errors@.take(errors@.len() as int) =~= errors@);
    Err(msg)
}

} // verus!
