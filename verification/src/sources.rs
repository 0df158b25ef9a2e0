//! Provider URL construction and merging of fetched key lists.
//!
//! A provider selection is three independent flags: GitHub, Launchpad, and
//! GitLab with an optional base-URL override. The one default rule: when
//! none of the three flags is set, GitHub alone is used — a stray GitLab
//! base URL without the GitLab flag does not count as a selection. The
//! HTTPS fetching itself is I/O and is done by the unverified front end;
//! what it downloads is parsed and merged here.

use crate::keys::canon_seq;
use crate::keys::clean_keys;
use crate::keys::filter_keys;
use crate::keys::keys_of;
use crate::keys::select_new;
use crate::keys::split_keys;
use crate::keys::views;
use vstd::prelude::*;
use vstd::string::*;

verus! {

/// The GitHub keys URL of a username.
pub open spec fn github_url_of(username: Seq<char>) -> Seq<char> {
    "https://github.com/"@ + username + ".keys"@
}

/// The GitLab keys URL of a username, against the default host or an
/// override.
pub open spec fn gitlab_url_of(username: Seq<char>, over: Option<Seq<char>>) -> Seq<char> {
    match over {
        Some(base) => base + username + ".keys"@,
        None => "https://gitlab.com/"@ + username + ".keys"@,
    }
}

/// The Launchpad keys URL of a username.
pub open spec fn launchpad_url_of(username: Seq<char>) -> Seq<char> {
    "https://launchpad.net/~"@ + username + "/+sshkeys"@
}

/// The view of an optional override URL.
pub open spec fn opt_view(o: Option<&str>) -> Option<Seq<char>> {
    match o {
        Some(u) => Some(u@),
        None => None,
    }
}

/// The URLs a selection stands for, in the fixed GitHub, Launchpad, GitLab
/// order. When no flag is set, the GitHub URL alone.
pub open spec fn selected_urls(
    username: Seq<char>,
    github: bool,
    launchpad: bool,
    gitlab: bool,
    gitlab_url: Option<Seq<char>>,
) -> Seq<Seq<char>> {
    (if github || (!github && !launchpad && !gitlab) {
        seq![github_url_of(username)]
    } else {
        Seq::<Seq<char>>::empty()
    }) + (if launchpad {
        seq![launchpad_url_of(username)]
    } else {
        Seq::<Seq<char>>::empty()
    }) + (if gitlab {
        seq![gitlab_url_of(username, gitlab_url)]
    } else {
        Seq::<Seq<char>>::empty()
    })
}

/// The GitHub keys URL for a username.
pub fn get_github(username: &str) -> (r: String)
    ensures
        r@ == github_url_of(username@),
{
    String::from_str("https://github.com/").concat(username).concat(".keys")
}

/// The GitLab keys URL for a username; with no override the default
/// `https://gitlab.com/` host is used.
pub fn get_gitlab(username: &str, url: Option<&str>) -> (r: String)
    ensures
        r@ == gitlab_url_of(username@, opt_view(url)),
{
    match url {
        Some(u) => String::from_str(u).concat(username).concat(".keys"),
        None => String::from_str("https://gitlab.com/").concat(username).concat(".keys"),
    }
}

/// The Launchpad keys URL for a username.
pub fn get_launchpad(username: &str) -> (r: String)
    ensures
        r@ == launchpad_url_of(username@),
{
    String::from_str("https://launchpad.net/~").concat(username).concat("/+sshkeys")
}

/// The URLs to fetch for a selection. When none of the three flags is set,
/// the GitHub URL alone is returned; a GitLab override URL without the
/// GitLab flag changes nothing.
pub fn create_urls(
    username: &str,
    github: bool,
    launchpad: bool,
    gitlab: bool,
    gitlab_url: Option<&str>,
) -> (r: Vec<String>)
    ensures
        views(r@) == selected_urls(username@, github, launchpad, gitlab, opt_view(gitlab_url)),
{
    let real_github = !github && !launchpad && !gitlab;
    let mut urls: Vec<String> = Vec::new();
    if real_github || github {
        urls.push(get_github(username));
    }
    if launchpad {
        urls.push(get_launchpad(username));
    }
    if gitlab {
        urls.push(get_gitlab(username, gitlab_url));
    }
    proof {
        assert(views(urls@) =~= selected_urls(
            username@,
            github,
            launchpad,
            gitlab,
            opt_view(gitlab_url),
        ));
    }
    urls
}

/// The canonical keys a list of fetched response bodies holds, in fetch
/// order: each body parsed and canonicalised, then concatenated.
pub open spec fn fetched_keys(bodies: Seq<Seq<char>>) -> Seq<Seq<char>> {
    bodies.map_values(|b: Seq<char>| canon_seq(keys_of(b))).flatten()
}

/// Parses and merges the fetched response bodies into one list of canonical
/// keys without duplicates: keys are kept in fetch order, the first
/// occurrence of each canonical (type, blob) pair winning.
pub fn merge_provider_keys(bodies: &Vec<String>) -> (r: Vec<String>)
    ensures
        views(r@) == select_new(fetched_keys(views(bodies@)), Seq::empty()),
{
    broadcast use vstd::seq_lib::group_seq_properties;

    let mut all: Vec<String> = Vec::new();
    let mut i: usize = 0;
    while i < bodies.len()
        invariant
            i <= bodies@.len(),
            views(all@) =~= fetched_keys(views(bodies@.subrange(0, i as int))),
        decreases bodies@.len() - i,
    {
        let ks = split_keys(bodies[i].as_str());
        let mut cleaned = clean_keys(ks);
        let ghost all0 = all@;
        let ghost cleaned0 = cleaned@;
        all.append(&mut cleaned);
        proof {
            let f = |b: Seq<char>| canon_seq(keys_of(b));
            let prev = views(bodies@.subrange(0, i as int));
            let next = views(bodies@.subrange(0, i + 1));
            assert(next =~= prev.push(bodies@[i as int]@));
            assert(next.map_values(f) =~= prev.map_values(f).push(f(bodies@[i as int]@)));
            prev.map_values(f).lemma_flatten_push(f(bodies@[i as int]@));
            assert(fetched_keys(next) == prev.map_values(f).flatten() + f(bodies@[i as int]@));
            assert(views(all@) =~= views(all0) + views(cleaned0));
            assert(views(cleaned0) == f(bodies@[i as int]@));
        }
        i += 1;
    }
    proof {
        assert(bodies@.subrange(0, bodies@.len() as int) =~= bodies@);
    }
    let none: Vec<String> = Vec::new();
    proof {
        assert(canon_seq(views(none@)) =~= Seq::<Seq<char>>::empty());
    }
    filter_keys(all, none)
}

} // verus!
