use vstd::prelude::*;
use substring::Substring;

verus! {

/// The path begins with a tilde, which stands for the home directory.
pub open spec fn starts_with_tilde(s: Seq<char>) -> bool {
    s.len() > 0 && s[0] == '~'
}

/// The characters of `s` from position `start` up to, not including, `end`,
/// each bound cut down to the length of `s`; nothing when `end <= start`.
pub open spec fn char_range(s: Seq<char>, start: int, end: int) -> Seq<char> {
    if end <= start {
        Seq::empty()
    } else {
        let n = s.len() as int;
        let a = if start < n {
            start
        } else {
            n
        };
        let b = if end < n {
            end
        } else {
            n
        };
        s.subrange(a, b)
    }
}

/// Relies on `substring::Substring::substring` for `str`: it returns the
/// characters (not bytes) from `start` up to `end`, both cut down to the
/// length, and the empty string when `end <= start`; it does not panic.
#[verifier::external_body]
fn substring_chars(s: &str, start: usize, end: usize) -> (r: String)
    ensures
        r@ == char_range(s@, start as int, end as int),
{
    s.substring(start, end).to_string()
}

/// Relies on `shellexpand::tilde`: applied to `"~"` it gives the home
/// directory of the user, or `"~"` itself when there is none. That depends on
/// the environment, so nothing is stated of it.
#[verifier::external_body]
fn home_dir_text() -> (r: String) {
    shellexpand::tilde("~").to_string()
}

/// `path` with a leading tilde replaced by `home`; any other path unchanged.
pub fn expand_tilde_with_home(path: &str, home: &str) -> (r: String)
    ensures
        starts_with_tilde(path@) ==> r@ == home@ + path@.skip(1),
        !starts_with_tilde(path@) ==> r@ == path@,
{
    let n = path.unicode_len();
    if n > 0 && path.get_char(0) == '~' {
        let rest = substring_chars(path, 1, n);
        proof {
            assert(rest@ =~= path@.skip(1));
        }
        let mut out = String::from_str(home);
        out.append(rest.as_str());
        out
    } else {
        String::from_str(path)
    }
}

/// `path` with a leading tilde replaced by the home directory of the user;
/// any other path unchanged.
pub fn get_path_with_tilde_expanded_if_necessary(path: &str) -> (r: String)
    ensures
        starts_with_tilde(path@) ==> exists|home: Seq<char>| r@ == home + path@.skip(1),
        !starts_with_tilde(path@) ==> r@ == path@,
{
    if is_tilde_path(path) {
        let home = home_dir_text();
        expand_tilde_with_home(path, home.as_str())
    } else {
        String::from_str(path)
    }
}

fn is_tilde_path(path: &str) -> (r: bool)
    ensures
        r == starts_with_tilde(path@),
{
    path.unicode_len() > 0 && path.get_char(0) == '~'
}

} // verus!
