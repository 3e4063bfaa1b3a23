//! Repository-local identity: the `[user]` section of `.git/config`.

use vstd::prelude::*;

verus! {

/// The top-level structure of a Git configuration file.
#[derive(Debug)]
pub struct GitConfig {
    /// The `[user]` section of the config.
    pub user: UserConfig,
}

/// The `[user]` section containing identity information.
#[derive(Debug)]
pub struct UserConfig {
    /// The user's name (e.g., "John Doe").
    pub name: String,
    /// The user's email address (e.g., "john@example.com").
    pub email: String,
}

/// The name used when the configuration gives none.
pub open spec fn unknown_name() -> Seq<char> {
    seq!['u', 'n', 'k', 'n', 'o', 'w', 'n', '_', 'u', 's', 'e', 'r']
}

/// The email used when the configuration gives none.
pub open spec fn unknown_email() -> Seq<char> {
    seq!['u', 'n', 'k', 'n', 'o', 'w', 'n', '@', 'l', 'o', 'c', 'a', 'l', 'h', 'o', 's', 't']
}

/// The identity used when the configuration is missing or malformed.
pub fn unknown_user() -> (res: UserConfig)
    ensures
        res.name@ == unknown_name(),
        res.email@ == unknown_email(),
{
    let name = "unknown_user";
    let email = "unknown@localhost";
    proof {
        reveal_strlit("unknown_user");
        reveal_strlit("unknown@localhost");
        assert(name@ =~= unknown_name());
        assert(email@ =~= unknown_email());
    }
    UserConfig { name: name.to_owned(), email: email.to_owned() }
}

/// The author's name and email: those of the parsed configuration, or
/// `("unknown_user", "unknown@localhost")` where the configuration is missing
/// or could not be parsed.
pub fn get_author(config: Option<GitConfig>) -> (res: (String, String))
    ensures
        match config {
            Some(c) => res.0@ == c.user.name@ && res.1@ == c.user.email@,
            None => res.0@ == unknown_name() && res.1@ == unknown_email(),
        },
{
    let user = match config {
        Some(c) => c.user,
        None => unknown_user(),
    };
    (user.name, user.email)
}

} // verus!
