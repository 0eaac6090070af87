//! Root resolution: an ordered fallback chain that picks the directory the
//! walk starts from.
//!
//! The chain has three slots, tried in order, first success winning: an
//! explicit override supplied on the command line, the value of a
//! designated environment variable when it is set and non-empty, and the
//! home directory joined with the fixed subdirectory name `projects`.
//! When every slot is empty, resolution fails with a fixed message.
//!
//! The functions here work on plain values: the surrounding program reads
//! the command line, the environment and the home directory, and hands the
//! results in as options.

use vstd::prelude::*;
use vstd::string::StrSliceExecFns;
use vstd::string::StringExecFns;

verus! {

/// The command-line options that matter to resolution: an optional
/// explicit root override.
pub struct Args {
    pub flag_project_root: Option<String>,
}

/// The environment slot of the chain: the variable's value counts only
/// when it is set and non-empty, and is then taken verbatim.
pub open spec fn env_candidate(env_value: Option<Seq<char>>) -> Option<Seq<char>> {
    match env_value {
        Some(v) => if v.len() > 0 {
            Some(v)
        } else {
            None
        },
        None => None,
    }
}

/// A directory path joined with a child name: a separator is inserted
/// unless the directory already ends with one.
pub open spec fn join_path(dir: Seq<char>, child: Seq<char>) -> Seq<char> {
    if dir.len() > 0 && dir.last() == '/' {
        dir + child
    } else {
        dir + seq!['/'] + child
    }
}

/// The default slot of the chain: the home directory, when it can be
/// determined, joined with the fixed subdirectory name.
pub open spec fn default_candidate(home: Option<Seq<char>>) -> Option<Seq<char>> {
    match home {
        Some(h) => Some(join_path(h, "projects"@)),
        None => None,
    }
}

/// The resolved root for a given override, environment value and home
/// directory: the first available source wins, and the later sources are
/// not consulted.
pub open spec fn resolved_root(
    arg: Option<Seq<char>>,
    env_value: Option<Seq<char>>,
    home: Option<Seq<char>>,
) -> Option<Seq<char>> {
    if arg is Some {
        arg
    } else if env_candidate(env_value) is Some {
        env_candidate(env_value)
    } else {
        default_candidate(home)
    }
}

/// The override slot: the value given on the command line, if any.
pub fn find_root_directory_by_arg(args: &Args) -> (r: Option<String>)
    ensures
        r.deep_view() == args.flag_project_root.deep_view(),
{
    match &args.flag_project_root {
        Some(s) => Some(s.clone()),
        None => None,
    }
}

/// The environment slot: a set and non-empty value is taken verbatim,
/// whether or not the path it names exists.
pub fn find_root_directory_by_env(env_value: Option<String>) -> (r: Option<String>)
    ensures
        r.deep_view() == env_candidate(env_value.deep_view()),
{
    match env_value {
        Some(v) => {
            if v.as_str().is_empty() {
                None
            } else {
                Some(v)
            }
        },
        None => None,
    }
}

/// Appends `child` under `dir`, inserting a separator unless `dir`
/// already ends with one.
fn join_under(dir: String, child: &str) -> (r: String)
    ensures
        r@ == join_path(dir@, child@),
{
    proof {
        reveal_strlit("/");
        assert("/"@ =~= seq!['/']);
    }
    let n = dir.as_str().unicode_len();
    if n > 0 && dir.as_str().get_char(n - 1) == '/' {
        dir.concat(child)
    } else {
        let with_sep = dir.concat("/");
        with_sep.concat(child)
    }
}

/// The default slot: the home directory joined with the fixed `projects`
/// subdirectory; nothing when no home directory could be determined.
pub fn find_root_directory_by_default(home: Option<String>) -> (r: Option<String>)
    ensures
        r.deep_view() == default_candidate(home.deep_view()),
{
    match home {
        Some(h) => Some(join_under(h, "projects")),
        None => None,
    }
}

/// Resolves the root directory: the explicit override wins; otherwise a
/// set and non-empty environment value; otherwise the home directory's
/// `projects` subdirectory. With none of the three, resolution fails with
/// the fixed message, and that is the only way it fails.
pub fn find_root_directory(args: &Args, env_value: Option<String>, home: Option<String>) -> (r:
    Result<String, String>)
    ensures
        match r {
            Ok(root) => resolved_root(
                args.flag_project_root.deep_view(),
                env_value.deep_view(),
                home.deep_view(),
            ) == Some(root@),
            Err(m) => resolved_root(
                args.flag_project_root.deep_view(),
                env_value.deep_view(),
                home.deep_view(),
            ) is None && m@ == "Failed to determine the root directory"@,
        },
{
    if let Some(p) = find_root_directory_by_arg(args) {
        return Ok(p);
    }
    if let Some(p) = find_root_directory_by_env(env_value) {
        return Ok(p);
    }
    if let Some(p) = find_root_directory_by_default(home) {
        return Ok(p);
    }
    Err("Failed to determine the root directory".to_owned())
}

} // verus!
