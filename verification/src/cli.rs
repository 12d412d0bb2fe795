//! The command line.
use crate::text::{chars_of, text_between};
use vstd::prelude::*;

verus! {

/// The port that SSH servers listen on by default.
pub const DEFAULT_SSH_PORT: u16 = 22;

/// The command line of the program.
pub struct Cli {
    pub command: Command,
}

/// What the program is asked to do.
pub enum Command {
    /// Start the partest daemon (advertises this machine on the local network)
    Daemon {
        /// SSH port to advertise for remote connections
        ssh_port: u16,
    },
    /// Run tests distributed across all discovered peers
    Run {
        /// Path to SSH private key
        ssh_key: String,
        /// Build and run tests in release mode
        release: bool,
        /// Extra arguments forwarded to `cargo nextest run`
        nextest_args: Vec<String>,
    },
    /// List discovered peers on the local network
    Status,
}

/// The directory that a home variable names; the tilde where it is not set.
pub open spec fn home_or_tilde(home: Option<Seq<char>>) -> Seq<char> {
    match home {
        Some(dir) => dir,
        None => "~"@,
    }
}

/// The private key that is used where the command line names none, for the
/// value of the home variable.
pub fn default_ssh_key(home: Option<String>) -> (path: String)
    ensures
        path@ == home_or_tilde(
            match home {
                Some(dir) => Some(dir@),
                None => None,
            },
        ) + "/.ssh/id_ed25519"@,
        home matches Some(dir) ==> path@ == dir@ + "/.ssh/id_ed25519"@,
        home is None ==> path@ == "~"@ + "/.ssh/id_ed25519"@,
{
    let mut path = match home {
        Some(dir) => dir,
        None => "~".to_owned(),
    };
    path.append("/.ssh/id_ed25519");
    path
}

/// Whether a path begins with a tilde that stands for a home directory: one
/// that a separator follows, or nothing. The backslash is a separator on some
/// systems.
pub open spec fn begins_at_home(path: Seq<char>) -> bool {
    &&& path.len() > 0
    &&& path[0] == '~'
    &&& path.len() == 1 || path[1] == '/' || path[1] == '\\'
}

/// Whether `expanded` is a path with its tilde replaced by `home`.
pub open spec fn at_home(path: Seq<char>, home: Seq<char>, expanded: Seq<char>) -> bool {
    expanded == home + path.skip(1)
}

/// What can come of expanding a path: the path itself, or, where it begins at
/// home, the path with its tilde replaced by some directory.
pub open spec fn expansion(path: Seq<char>, expanded: Seq<char>) -> bool {
    ||| expanded == path
    ||| begins_at_home(path) && exists|home: Seq<char>| at_home(path, home, expanded)
}

/// `shellexpand::tilde`: a path that does not begin at home stays as it is. One
/// that does has its tilde replaced by the home directory of the user, and stays
/// as it is where that is not known. Which directory it is depends on the
/// environment, so nothing is said of it.
#[verifier::external_body]
pub fn expand_tilde(path: &str) -> (expanded: String)
    ensures
        expansion(path@, expanded@),
{
    shellexpand::tilde(path).into_owned()
}

/// Whether a path begins with a tilde that stands for a home directory on every
/// system.
pub open spec fn is_home_path(path: Seq<char>) -> bool {
    &&& path.len() > 0
    &&& path[0] == '~'
    &&& path.len() == 1 || path[1] == '/'
}

/// A path for a user whose home directory is `home`.
pub open spec fn path_at(path: Seq<char>, home: Seq<char>) -> Seq<char> {
    if is_home_path(path) {
        home + path.skip(1)
    } else {
        path
    }
}

/// The path of the private key that the command line names, for a user whose home
/// directory is `home`.
pub fn key_path_at(ssh_key: &str, home: &str) -> (path: String)
    ensures
        path@ == path_at(ssh_key@, home@),
{
    let chars = chars_of(ssh_key);
    if chars.len() > 0 && chars[0] == '~' && (chars.len() == 1 || chars[1] == '/') {
        let mut path = home.to_owned();
        path.append(text_between(&chars, 1, chars.len()).as_str());
        assert(chars@.subrange(1, chars@.len() as int) == ssh_key@.skip(1));
        path
    } else {
        ssh_key.to_owned()
    }
}

/// Whether a path is written with a tilde and a backslash.
fn has_backslash_home(path: &str) -> (yes: bool)
    ensures
        yes <==> begins_at_home(path@) && !is_home_path(path@),
{
    let chars = chars_of(path);
    chars.len() > 1 && chars[0] == '~' && chars[1] == '\\'
}

/// The path of the private key that the command line names. A leading tilde is
/// replaced by what it expands to by itself, and a tilde with a backslash is left
/// to the expansion as a whole.
pub fn ssh_key_path(ssh_key: &str) -> (path: String)
    ensures
        is_home_path(ssh_key@) ==> exists|home: String| #[trigger]
            call_ensures(expand_tilde, ("~",), home) && path@ == path_at(ssh_key@, home@),
        begins_at_home(ssh_key@) && !is_home_path(ssh_key@) ==> call_ensures(
            expand_tilde,
            (ssh_key,),
            path,
        ),
        !begins_at_home(ssh_key@) ==> path@ == ssh_key@,
        expansion(ssh_key@, path@),
{
    if has_backslash_home(ssh_key) {
        return expand_tilde(ssh_key);
    }
    let home = expand_tilde("~");
    let path = key_path_at(ssh_key, home.as_str());
    assert(is_home_path(ssh_key@) ==> at_home(ssh_key@, home@, path@));
    path
}

/// The home directory stands for a tilde that is a path by itself or comes before a
/// slash, and for no other: a path that begins otherwise, with the name of a user
/// behind the tilde among them, stays as it is.
pub proof fn home_stands_for_the_tilde(rest: Seq<char>, home: Seq<char>, path: Seq<char>)
    ensures
        path_at(seq!['~'], home) == home,
        path_at(seq!['~', '/'] + rest, home) == home + seq!['/'] + rest,
        rest.len() > 0 && rest[0] != '/' ==> path_at(seq!['~'] + rest, home) == seq!['~'] + rest,
        path.len() == 0 || path[0] != '~' ==> path_at(path, home) == path,
        begins_at_home(seq!['~']) && begins_at_home(seq!['~', '/'] + rest) && begins_at_home(
            seq!['~', '\\'] + rest,
        ),
        path.len() == 0 || path[0] != '~' ==> !begins_at_home(path),
        rest.len() > 0 && rest[0] != '/' && rest[0] != '\\' ==> !begins_at_home(
            seq!['~'] + rest,
        ),
{
    let alone = seq!['~'];
    assert(home + alone.skip(1) == home);
    let below = seq!['~', '/'] + rest;
    assert(home + below.skip(1) == home + seq!['/'] + rest);
    if rest.len() > 0 {
        assert((seq!['~'] + rest)[1] == rest[0]);
    }
}

/// What can come of expanding a path: one that does not begin at home stays, and of
/// one that does only the tilde changes.
pub proof fn only_the_tilde_is_expanded(path: Seq<char>, expanded: Seq<char>)
    requires
        expansion(path, expanded),
    ensures
        !begins_at_home(path) ==> expanded == path,
        begins_at_home(path) ==> expanded.len() >= path.len() - 1 && expanded.skip(
            expanded.len() - (path.len() - 1),
        ) == path.skip(1),
{
    if expanded != path {
        let home = choose|home: Seq<char>| at_home(path, home, expanded);
        assert(expanded.skip(expanded.len() - (path.len() - 1)) == path.skip(1));
    } else if begins_at_home(path) {
        assert(expanded.skip(expanded.len() - (path.len() - 1)) == path.skip(1));
    }
}

} // verus!
