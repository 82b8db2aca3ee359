//! Git sources and the current branch.
//!
//! A Git package source is classified and split into a clone URL, host,
//! path and optional pinned ref; GitHub, GitLab and Bitbucket shorthands
//! are recognized (a bare `domain/project` reads as the GitHub user
//! `domain`). The current branch comes from the `HEAD` file of the
//! repository found above a folder; reading files is the caller's part.

use vstd::prelude::*;

use crate::packages::{trim_leading_slashes, unsafe_candidate, unsafe_chars};
use crate::text::{
    chars_of, concat_chars, copy_range, find_char, find_chars, first_index, first_occurrence, last_index,
    rfind_char, spec_trim, starts_with, starts_with_str, string_of, trim_chars,
};

verus! {

/// A parsed Git source: clone URL, host, path (`user/project`), the ref
/// when one was given, and whether it is pinned (a ref was given).
pub struct GitSource {
    pub repo: String,
    pub host: String,
    pub path: String,
    pub reference: Option<String>,
    pub pinned: bool,
}

/// What a Git source holds: repository, host, path and ref.
pub type GitView = (Seq<char>, Seq<char>, Seq<char>, Option<Seq<char>>);

/// The view of a Git source.
pub open spec fn git_view(g: GitSource) -> GitView {
    (g.repo@, g.host@, g.path@, match g.reference { Some(r) => Some(r@), None => None })
}

/// An optional character vector as a plain value.
pub open spec fn opt_view(o: Option<Vec<char>>) -> Option<Seq<char>> {
    match o {
        Some(v) => Some(v@),
        None => None,
    }
}

/// Whether a source is a local path: not (after trimming) an `npm:`,
/// `git:`, `github:`, `http:`, `https:` or `ssh:` source.
pub open spec fn spec_is_local_path(value: Seq<char>) -> bool {
    let t = spec_trim(value);
    !(starts_with(t, "npm:"@) || starts_with(t, "git:"@) || starts_with(t, "github:"@)
        || starts_with(t, "http:"@) || starts_with(t, "https:"@) || starts_with(t, "ssh:"@))
}

/// Whether a source is a local path (see `spec_is_local_path`).
pub fn is_local_path(value: &str) -> (r: bool)
    ensures
        r == spec_is_local_path(value@),
{
    let t = trim_chars(&chars_of(value));
    !(starts_with_str(&t, "npm:") || starts_with_str(&t, "git:") || starts_with_str(&t, "github:")
        || starts_with_str(&t, "http:") || starts_with_str(&t, "https:") || starts_with_str(&t, "ssh:"))
}

/// A ref split off a repository: for `git@host:path@ref` at the last `@`
/// of the path; for a URL at the first `@` after the authority (a
/// `user@` in the authority is not a ref); for `host/path@ref` at the
/// first `@` of the path. Both sides must be non-empty, else the URL is
/// kept whole.
pub open spec fn spec_split_ref(url: Seq<char>) -> (Seq<char>, Option<Seq<char>>) {
    if starts_with(url, "git@"@) {
        let rest = url.skip(4);
        match first_index(rest, ':') {
            Some(colon) => {
                let pwr = rest.skip(colon + 1);
                match last_index(pwr, '@') {
                    Some(at) => if at > 0 && at + 1 < pwr.len() {
                        ("git@"@ + rest.take(colon + 1) + pwr.take(at), Some(pwr.skip(at + 1)))
                    } else {
                        (url, None)
                    },
                    None => (url, None),
                }
            },
            None => (url, None),
        }
    } else {
        match first_occurrence(url, "://"@, 0) {
            Some(proto) => {
                let after = url.skip(proto + 3);
                match first_index(after, '/') {
                    Some(slash) => {
                        let pathname = after.skip(slash + 1);
                        match first_index(pathname, '@') {
                            Some(at) => if at > 0 && at + 1 < pathname.len() {
                                (url.take(proto) + "://"@ + after.take(slash + 1) + pathname.take(at), Some(pathname.skip(at + 1)))
                            } else {
                                (url, None)
                            },
                            None => (url, None),
                        }
                    },
                    None => (url, None),
                }
            },
            None => match first_index(url, '/') {
                Some(slash) => {
                    let path = url.skip(slash + 1);
                    match first_index(path, '@') {
                        Some(at) => if at > 0 && at + 1 < path.len() {
                            (url.take(slash) + "/"@ + path.take(at), Some(path.skip(at + 1)))
                        } else {
                            (url, None)
                        },
                        None => (url, None),
                    }
                },
                None => (url, None),
            },
        }
    }
}

/// `v` split at `at`: the part before and the part after it.
fn around(v: &Vec<char>, at: usize) -> (r: (Vec<char>, Vec<char>))
    requires
        at < v@.len(),
    ensures
        r.0@ == v@.take(at as int),
        r.1@ == v@.skip(at + 1),
{
    let n = v.len();
    let a = copy_range(v, 0, at);
    let b = copy_range(v, at + 1, n);
    assert(a@ =~= v@.take(at as int));
    assert(b@ =~= v@.skip(at + 1));
    (a, b)
}

fn split_ref(url: &Vec<char>) -> (r: (Vec<char>, Option<Vec<char>>))
    ensures
        r.0@ == spec_split_ref(url@).0,
        opt_view(r.1) == spec_split_ref(url@).1,
{
    proof {
        reveal_strlit("git@");
        reveal_strlit("://");
        reveal_strlit("/");
        assert("://"@.len() == 3);
    }
    if starts_with_str(url, "git@") {
        let rest = copy_range(url, 4, url.len());
        assert(rest@ =~= url@.skip(4));
        if let Some(colon) = find_char(&rest, ':') {
            let pwr = copy_range(&rest, colon + 1, rest.len());
            assert(pwr@ =~= rest@.skip(colon + 1));
            if let Some(at) = rfind_char(&pwr, '@') {
                if at > 0 && at + 1 < pwr.len() {
                    let (head, reference) = around(&pwr, at);
                    let lead = copy_range(&rest, 0, colon + 1);
                    assert(lead@ =~= rest@.take(colon + 1));
                    let repo = concat_chars(&concat_chars(&chars_of("git@"), &lead), &head);
                    return (repo, Some(reference));
                }
            }
        }
        let whole = copy_range(url, 0, url.len());
        assert(whole@ =~= url@);
        return (whole, None);
    }
    let sep = chars_of("://");
    let n = url.len();
    if let Some(proto) = find_chars(url, &sep) {
        assert(proto + 3 <= n);
        let after = copy_range(url, proto + 3, n);
        assert(after@ =~= url@.skip(proto + 3));
        if let Some(slash) = find_char(&after, '/') {
            let pathname = copy_range(&after, slash + 1, after.len());
            assert(pathname@ =~= after@.skip(slash + 1));
            if let Some(at) = find_char(&pathname, '@') {
                if at > 0 && at + 1 < pathname.len() {
                    let (head, reference) = around(&pathname, at);
                    let scheme = copy_range(url, 0, proto);
                    assert(scheme@ =~= url@.take(proto as int));
                    let authority = copy_range(&after, 0, slash + 1);
                    assert(authority@ =~= after@.take(slash + 1));
                    let repo = concat_chars(&concat_chars(&concat_chars(&scheme, &sep), &authority), &head);
                    return (repo, Some(reference));
                }
            }
        }
        let whole = copy_range(url, 0, url.len());
        assert(whole@ =~= url@);
        return (whole, None);
    }
    if let Some(slash) = find_char(url, '/') {
        let (host, path) = around(url, slash);
        if let Some(at) = find_char(&path, '@') {
            if at > 0 && at + 1 < path.len() {
                let (head, reference) = around(&path, at);
                let mut repo = host;
                repo.push('/');
                let repo = concat_chars(&repo, &head);
                assert(repo@ =~= url@.take(slash as int) + "/"@ + path@.take(at as int));
                return (repo, Some(reference));
            }
        }
    }
    let whole = copy_range(url, 0, url.len());
    assert(whole@ =~= url@);
    (whole, None)
}

/// A Git source from its parts: a path that starts with `/` is refused;
/// the path loses a trailing `.git` and needs two `/`-separated
/// segments; host and path must be safe (see `unsafe_candidate`).
pub open spec fn spec_build_git(repo: Seq<char>, host: Seq<char>, path: Seq<char>, reference: Option<Seq<char>>) -> Option<GitView> {
    if starts_with(path, "/"@) {
        None
    } else {
        let normalized = if crate::path::ends_with(path, ".git"@) { path.take(path.len() - 4) } else { path };
        if host.len() == 0 || crate::text::split_on(normalized, '/').len() < 2 {
            None
        } else if unsafe_candidate(host, false) || unsafe_candidate(normalized, true) {
            None
        } else {
            Some((repo, host, normalized, reference))
        }
    }
}

fn build_git_source(repo: &Vec<char>, host: &Vec<char>, path: &Vec<char>, reference: Option<Vec<char>>) -> (r: Option<GitSource>)
    ensures
        match (r, spec_build_git(repo@, host@, path@, opt_view(reference))) {
            (Some(g), Some(v)) => git_view(g) == v && g.pinned == (g.reference is Some),
            (None, None) => true,
            _ => false,
        },
{
    proof {
        reveal_strlit("/");
        reveal_strlit(".git");
        assert(".git"@ =~= seq!['.', 'g', 'i', 't']);
        assert("/"@ =~= seq!['/']);
    }
    if path.len() > 0 && path[0] == '/' {
        assert(starts_with(path@, "/"@)) by {
            assert(path@.take(1) =~= seq!['/']);
        }
        return None;
    }
    assert(!starts_with(path@, "/"@)) by {
        if starts_with(path@, "/"@) {
            assert(path@.take(1)[0] == path@[0]);
        }
    }
    let n = path.len();
    let has_git = n >= 4 && path[n - 4] == '.' && path[n - 3] == 'g' && path[n - 2] == 'i' && path[n - 1] == 't';
    assert(has_git == crate::path::ends_with(path@, ".git"@)) by {
        if n >= 4 {
            assert(path@.skip(n - 4) =~= seq![path@[n - 4], path@[n - 3], path@[n - 2], path@[n - 1]]);
        }
    }
    let normalized = if has_git { copy_range(path, 0, n - 4) } else { copy_range(path, 0, n) };
    assert(normalized@ =~= (if has_git { path@.take(n - 4) } else { path@ }));
    let segments = crate::text::split_chars(&normalized, '/');
    if host.len() == 0 || segments.len() < 2 {
        return None;
    }
    if unsafe_chars(host, false) || unsafe_chars(&normalized, true) {
        return None;
    }
    let reference = match reference {
        Some(v) => Some(string_of(v.as_slice())),
        None => None,
    };
    let pinned = reference.is_some();
    Some(GitSource {
        repo: string_of(repo.as_slice()),
        host: string_of(host.as_slice()),
        path: string_of(normalized.as_slice()),
        reference,
        pinned,
    })
}


/// What the hosted-repository recognizer finds: host, user, project and
/// the `#` committish.
pub type HostedView = (Seq<char>, Seq<char>, Seq<char>, Option<Seq<char>>);

/// `s` without a leading `https://`, `http://`, `ssh://` or `git://`.
pub open spec fn strip_scheme(s: Seq<char>) -> Seq<char> {
    if starts_with(s, "https://"@) {
        s.skip(8)
    } else if starts_with(s, "http://"@) {
        s.skip(7)
    } else if starts_with(s, "ssh://"@) {
        s.skip(6)
    } else if starts_with(s, "git://"@) {
        s.skip(6)
    } else {
        s
    }
}

/// Whether a host is one whose paths are `user/project`.
pub open spec fn known_host(host: Seq<char>) -> bool {
    host == "github.com"@ || host == "gitlab.com"@ || host == "bitbucket.org"@
}

/// Recognizes a hosted repository in `host/path[#committish]`,
/// `scheme://host/path[#committish]` or `git@host:path[#committish]`: on
/// GitHub, GitLab and Bitbucket the path is `user/project`; any other
/// host with a dot (not `localhost`) reads as the GitHub user of that
/// name, the project being the path after its first `/` (or the whole
/// path). User and project must be non-empty.
pub open spec fn spec_recognize_hosted(input: Seq<char>) -> Option<HostedView> {
    let s = strip_scheme(input);
    let split: Option<(Seq<char>, Seq<char>)> = if starts_with(s, "git@"@) {
        match first_index(s.skip(4), ':') {
            Some(c) => Some((s.skip(4).take(c), s.skip(4).skip(c + 1))),
            None => None,
        }
    } else {
        match first_index(s, '/') {
            Some(sl) => Some((s.take(sl), s.skip(sl + 1))),
            None => None,
        }
    };
    match split {
        None => None,
        Some((host, pp)) => {
            let (path, committish) = match first_index(pp, '#') {
                Some(i) => (pp.take(i), Some(pp.skip(i + 1))),
                None => (pp, None),
            };
            if path.len() == 0 {
                None
            } else if !known_host(host) && (host == "localhost"@ || !host.contains('.')) {
                None
            } else {
                let (normal_host, user, project) = if known_host(host) {
                    match first_index(path, '/') {
                        Some(i) => (host, path.take(i), path.skip(i + 1)),
                        None => (host, path, Seq::<char>::empty()),
                    }
                } else {
                    ("github.com"@, host, match first_index(path, '/') {
                        Some(i) => path.skip(i + 1),
                        None => path,
                    })
                };
                if user.len() == 0 || project.len() == 0 {
                    None
                } else {
                    Some((normal_host, user, project, committish))
                }
            }
        },
    }
}

proof fn lemma_first_index_is(s: Seq<char>, c: char, k: int)
    requires
        0 <= k < s.len(),
        s[k] == c,
        forall|j: int| 0 <= j < k ==> s[j] != c,
    ensures
        first_index(s, c) == Some(k),
{
    crate::text::lemma_first_index_from(s, c, 0);
    if let Some(f) = first_index(s, c) {
        if f < k {
            assert(s[f] != c);
        } else if f > k {
            assert(s[k] != c);
        }
    }
}

proof fn lemma_first_index_absent(s: Seq<char>, c: char)
    requires
        !s.contains(c),
    ensures
        first_index(s, c) is None,
{
    crate::text::lemma_first_index_from(s, c, 0);
    if let Some(f) = first_index(s, c) {
        assert(s[f] == c);
    }
}

/// On GitHub, GitLab and Bitbucket, `host/user/project` keeps its host,
/// and the user and project are the two parts of its path.
pub proof fn law_hosted_domains_keep_host(host: Seq<char>, user: Seq<char>, project: Seq<char>)
    requires
        host == "github.com"@ || host == "gitlab.com"@ || host == "bitbucket.org"@,
        user.len() > 0,
        project.len() > 0,
        !user.contains('/'),
        !user.contains('#'),
        !project.contains('#'),
    ensures
        spec_recognize_hosted(host + "/"@ + user + "/"@ + project) == Some((host, user, project, None::<Seq<char>>)),
{
    reveal_strlit("github.com");
    reveal_strlit("gitlab.com");
    reveal_strlit("bitbucket.org");
    reveal_strlit("/");
    reveal_strlit("https://");
    reveal_strlit("http://");
    reveal_strlit("ssh://");
    reveal_strlit("git://");
    reveal_strlit("git@");
    reveal_strlit("localhost");
    let s = host + "/"@ + user + "/"@ + project;
    assert(host.len() >= 10);
    assert(s.take(10) == host.take(10));
    assert(!starts_with(s, "https://"@)) by { assert(s[0] != 'h' || s[1] != 't' || s[2] != 't'); assert(s.take(8)[0] == s[0]); }
    assert(!starts_with(s, "http://"@)) by { assert(s.take(7)[0] == s[0]); }
    assert(!starts_with(s, "ssh://"@)) by { assert(s.take(6)[0] == s[0]); }
    assert(!starts_with(s, "git://"@)) by { assert(s.take(6)[0] == s[0] && s.take(6)[3] == s[3]); }
    assert(strip_scheme(s) == s);
    assert(!starts_with(s, "git@"@)) by { assert(s.take(4)[0] == s[0] && s.take(4)[3] == s[3]); }
    assert(!host.contains('/')) by {
        if host.contains('/') {
            let i = choose|i: int| 0 <= i < host.len() && host[i] == '/';
        }
    }
    assert forall|j: int| 0 <= j < host.len() implies s[j] != '/' by {
        assert(s[j] == host[j]);
    }
    lemma_first_index_is(s, '/', host.len() as int);
    let pp = user + "/"@ + project;
    assert(s.take(host.len() as int) =~= host);
    assert(s.skip(host.len() as int + 1) =~= pp);
    assert(!pp.contains('#')) by {
        if pp.contains('#') {
            let i = choose|i: int| 0 <= i < pp.len() && pp[i] == '#';
            if i < user.len() {
                assert(user[i] == '#');
            } else if i > user.len() {
                assert(project[i - user.len() - 1] == '#');
            }
        }
    }
    lemma_first_index_absent(pp, '#');
    assert forall|j: int| 0 <= j < user.len() implies pp[j] != '/' by {
        assert(pp[j] == user[j]);
        if user[j] == '/' {
            assert(user.contains('/'));
        }
    }
    lemma_first_index_is(pp, '/', user.len() as int);
    assert(pp.take(user.len() as int) =~= user);
    assert(pp.skip(user.len() as int + 1) =~= project);
    assert(known_host(host));
}

struct Hosted {
    host: Vec<char>,
    user: Vec<char>,
    project: Vec<char>,
    committish: Option<Vec<char>>,
}

spec fn hosted_view(h: Hosted) -> HostedView {
    (h.host@, h.user@, h.project@, opt_view(h.committish))
}

fn strip_scheme_chars(s: &Vec<char>) -> (r: Vec<char>)
    ensures
        r@ == strip_scheme(s@),
{
    proof {
        reveal_strlit("https://");
        reveal_strlit("http://");
        reveal_strlit("ssh://");
        reveal_strlit("git://");
        assert("https://"@.len() == 8 && "http://"@.len() == 7 && "ssh://"@.len() == 6 && "git://"@.len() == 6);
    }
    let n = s.len();
    if starts_with_str(s, "https://") {
        let r = copy_range(s, 8, n);
        assert(r@ =~= s@.skip(8));
        r
    } else if starts_with_str(s, "http://") {
        let r = copy_range(s, 7, n);
        assert(r@ =~= s@.skip(7));
        r
    } else if starts_with_str(s, "ssh://") {
        let r = copy_range(s, 6, n);
        assert(r@ =~= s@.skip(6));
        r
    } else if starts_with_str(s, "git://") {
        let r = copy_range(s, 6, n);
        assert(r@ =~= s@.skip(6));
        r
    } else {
        let r = copy_range(s, 0, n);
        assert(r@ =~= s@);
        r
    }
}

fn is_lit(v: &Vec<char>, lit: &str) -> (r: bool)
    ensures
        r == (v@ == lit@),
{
    crate::text::chars_eq(v, &chars_of(lit))
}

fn recognize_hosted(input: &Vec<char>) -> (r: Option<Hosted>)
    ensures
        match (r, spec_recognize_hosted(input@)) {
            (Some(h), Some(v)) => hosted_view(h) == v,
            (None, None) => true,
            _ => false,
        },
{
    proof {
        reveal_strlit("git@");
        assert("git@"@.len() == 4);
    }
    let s = strip_scheme_chars(input);
    let (host, pp) = if starts_with_str(&s, "git@") {
        let rest = copy_range(&s, 4, s.len());
        assert(rest@ =~= s@.skip(4));
        match find_char(&rest, ':') {
            Some(c) => around(&rest, c),
            None => return None,
        }
    } else {
        match find_char(&s, '/') {
            Some(sl) => around(&s, sl),
            None => return None,
        }
    };
    let (path, committish) = match find_char(&pp, '#') {
        Some(i) => {
            let (a, b) = around(&pp, i);
            (a, Some(b))
        },
        None => (pp, None),
    };
    if path.len() == 0 {
        return None;
    }
    let known = is_lit(&host, "github.com") || is_lit(&host, "gitlab.com") || is_lit(&host, "bitbucket.org");
    if !known && (is_lit(&host, "localhost") || !crate::text::contains_char(&host, '.')) {
        return None;
    }
    let (normal_host, user, project) = if known {
        match find_char(&path, '/') {
            Some(i) => {
                let (a, b) = around(&path, i);
                (host, a, b)
            },
            None => (host, path, Vec::new()),
        }
    } else {
        let project = match find_char(&path, '/') {
            Some(i) => {
                let (_, b) = around(&path, i);
                b
            },
            None => path,
        };
        (chars_of("github.com"), host, project)
    };
    if user.len() == 0 || project.len() == 0 {
        return None;
    }
    let h = Hosted { host: normal_host, user, project, committish };
    assert(opt_view(h.committish) == match first_index(pp@, '#') {
        Some(i) => Some(pp@.skip(i + 1)),
        None => None::<Seq<char>>,
    });
    Some(h)
}

/// A Git source by the generic URL grammar: `git@host:path`; a URL with
/// a scheme, whose host drops any `user@` and `:port` and whose path
/// drops its leading `/`s; or `host/path` with a host that has a dot or
/// is `localhost`, cloned over `https://`.
pub open spec fn spec_parse_generic(rwr: Seq<char>, reference: Option<Seq<char>>) -> Option<GitView> {
    if starts_with(rwr, "git@"@) {
        let rest = rwr.skip(4);
        let (host, path) = match first_index(rest, ':') {
            Some(c) => (rest.take(c), rest.skip(c + 1)),
            None => (Seq::<char>::empty(), Seq::<char>::empty()),
        };
        spec_build_git(rwr, host, path, reference)
    } else if crate::packages::has_git_scheme(rwr) {
        let after = match first_occurrence(rwr, "://"@, 0) {
            Some(i) => rwr.skip(i + 3),
            None => rwr,
        };
        let (authority, pathname) = match first_index(after, '/') {
            Some(i) => (after.take(i), after.skip(i)),
            None => (after, Seq::<char>::empty()),
        };
        let without_user = match last_index(authority, '@') {
            Some(i) => authority.skip(i + 1),
            None => authority,
        };
        let hostname = match first_index(without_user, ':') {
            Some(i) => without_user.take(i),
            None => without_user,
        };
        if hostname.len() == 0 {
            None
        } else {
            spec_build_git(rwr, hostname, trim_leading_slashes(pathname), reference)
        }
    } else {
        match first_index(rwr, '/') {
            None => None,
            Some(sl) => {
                let host = rwr.take(sl);
                if !host.contains('.') && host != "localhost"@ {
                    None
                } else {
                    spec_build_git("https://"@ + rwr, host, rwr.skip(sl + 1), reference)
                }
            },
        }
    }
}

fn copy_opt(o: &Option<Vec<char>>) -> (r: Option<Vec<char>>)
    ensures
        opt_view(r) == opt_view(*o),
{
    match o {
        Some(v) => {
            let c = copy_range(v, 0, v.len());
            assert(c@ =~= v@);
            Some(c)
        },
        None => None,
    }
}

fn trim_leading_slashes_chars(v: &Vec<char>) -> (r: Vec<char>)
    ensures
        r@ == trim_leading_slashes(v@),
{
    let mut start: usize = 0;
    assert(v@.skip(0) =~= v@);
    while start < v.len() && v[start] == '/'
        invariant
            start <= v@.len(),
            trim_leading_slashes(v@.skip(start as int)) == trim_leading_slashes(v@),
        decreases v@.len() - start,
    {
        assert(v@.skip(start as int).drop_first() =~= v@.skip(start + 1));
        start += 1;
    }
    let r = copy_range(v, start, v.len());
    assert(r@ =~= v@.skip(start as int));
    r
}

fn parse_generic_git_url(rwr: &Vec<char>, reference: Option<Vec<char>>) -> (r: Option<GitSource>)
    ensures
        match (r, spec_parse_generic(rwr@, opt_view(reference))) {
            (Some(g), Some(v)) => git_view(g) == v && g.pinned == (g.reference is Some),
            (None, None) => true,
            _ => false,
        },
{
    proof {
        reveal_strlit("git@");
        reveal_strlit("://");
        reveal_strlit("https://");
        assert("git@"@.len() == 4 && "://"@.len() == 3);
    }
    let n = rwr.len();
    if starts_with_str(rwr, "git@") {
        let rest = copy_range(rwr, 4, n);
        assert(rest@ =~= rwr@.skip(4));
        let (host, path) = match find_char(&rest, ':') {
            Some(c) => around(&rest, c),
            None => (Vec::new(), Vec::new()),
        };
        return build_git_source(rwr, &host, &path, reference);
    }
    if starts_with_str(rwr, "https://") || starts_with_str(rwr, "http://") || starts_with_str(rwr, "ssh://") || starts_with_str(rwr, "git://") {
        let after = match find_chars(rwr, &chars_of("://")) {
            Some(i) => {
                assert(i + 3 <= n);
                let a = copy_range(rwr, i + 3, n);
                assert(a@ =~= rwr@.skip(i + 3));
                a
            },
            None => copy_range(rwr, 0, n),
        };
        assert(after@ == match first_occurrence(rwr@, "://"@, 0) { Some(i) => rwr@.skip(i + 3), None => rwr@ }) by {
            assert(rwr@.subrange(0, n as int) =~= rwr@);
        }
        let (authority, pathname) = match find_char(&after, '/') {
            Some(i) => {
                let a = copy_range(&after, 0, i);
                let p = copy_range(&after, i, after.len());
                assert(a@ =~= after@.take(i as int));
                assert(p@ =~= after@.skip(i as int));
                (a, p)
            },
            None => (copy_range(&after, 0, after.len()), Vec::new()),
        };
        assert(after@.subrange(0, after@.len() as int) =~= after@);
        let without_user = match rfind_char(&authority, '@') {
            Some(i) => {
                let (_, b) = around(&authority, i);
                b
            },
            None => authority,
        };
        let hostname = match find_char(&without_user, ':') {
            Some(i) => {
                let (a, _) = around(&without_user, i);
                a
            },
            None => without_user,
        };
        if hostname.len() == 0 {
            return None;
        }
        let path = trim_leading_slashes_chars(&pathname);
        return build_git_source(rwr, &hostname, &path, reference);
    }
    match find_char(rwr, '/') {
        None => None,
        Some(sl) => {
            let (host, path) = around(rwr, sl);
            if !crate::text::contains_char(&host, '.') && !is_lit(&host, "localhost") {
                return None;
            }
            let repo = concat_chars(&chars_of("https://"), rwr);
            build_git_source(&repo, &host, &path, reference)
        },
    }
}

/// Whether a repository must be cloned over `https://` (it names no
/// scheme and is not `git@`).
pub open spec fn needs_https(rnr: Seq<char>) -> bool {
    !(starts_with(rnr, "http://"@) || starts_with(rnr, "https://"@) || starts_with(rnr, "ssh://"@)
        || starts_with(rnr, "git://"@) || starts_with(rnr, "git@"@))
}

/// A recognized hosted repository, unless a ref was split off and the
/// project still holds an `@`.
pub open spec fn accepted(candidate: Seq<char>, split: Option<Seq<char>>) -> Option<HostedView> {
    match spec_recognize_hosted(candidate) {
        Some(info) => if split is Some && info.2.contains('@') { None } else { Some(info) },
        None => None,
    }
}

/// The Git source a hosted repository gives.
pub open spec fn from_hosted(repo: Seq<char>, info: HostedView, split: Option<Seq<char>>) -> Option<GitView> {
    spec_build_git(repo, info.0, info.1 + "/"@ + info.2, match info.3 { Some(c) => Some(c), None => split })
}

/// Parses a Git source: `git:`-prefixed, or a URL whose scheme
/// (ASCII-case-insensitively) is `https`, `http`, `ssh` or `git`. A ref
/// is split off (see `spec_split_ref`); a hosted repository is
/// recognized first on the repository with `#ref`, then over `https://`
/// (the repository with `#ref`, then the whole URL unless it is already
/// `https://`); otherwise the generic URL grammar applies to the whole
/// URL. A `#committish` wins over the split ref.
pub open spec fn spec_parse_git_url(source: Seq<char>) -> Option<GitView> {
    let trimmed = spec_trim(source);
    let has_prefix = starts_with(trimmed, "git:"@);
    let url = if has_prefix { spec_trim(trimmed.skip(4)) } else { trimmed };
    if !has_prefix && !crate::packages::has_git_scheme(crate::effects::ascii_lowercase(url)) {
        None
    } else {
        let (rnr, split) = spec_split_ref(url);
        let first = match split {
            Some(r) => rnr + "#"@ + r,
            None => rnr,
        };
        match accepted(first, split) {
            Some(info) => from_hosted(if needs_https(rnr) { "https://"@ + rnr } else { rnr }, info, split),
            None => {
                let second = match split {
                    Some(r) => accepted("https://"@ + rnr + "#"@ + r, split),
                    None => None,
                };
                match second {
                    Some(info) => from_hosted("https://"@ + rnr, info, split),
                    None => {
                        let third = if !starts_with(url, "https://"@) { accepted("https://"@ + url, split) } else { None };
                        match third {
                            Some(info) => from_hosted("https://"@ + rnr, info, split),
                            None => spec_parse_generic(url, split),
                        }
                    },
                }
            },
        }
    }
}

fn accepted_exec(candidate: &Vec<char>, split: &Option<Vec<char>>) -> (r: Option<Hosted>)
    ensures
        match (r, accepted(candidate@, opt_view(*split))) {
            (Some(h), Some(v)) => hosted_view(h) == v,
            (None, None) => true,
            _ => false,
        },
{
    match recognize_hosted(candidate) {
        Some(info) => {
            if split.is_some() && crate::text::contains_char(&info.project, '@') {
                None
            } else {
                Some(info)
            }
        },
        None => None,
    }
}

fn source_from_hosted(repo: &Vec<char>, info: Hosted, split: &Option<Vec<char>>) -> (r: Option<GitSource>)
    ensures
        match (r, from_hosted(repo@, hosted_view(info), opt_view(*split))) {
            (Some(g), Some(v)) => git_view(g) == v && g.pinned == (g.reference is Some),
            (None, None) => true,
            _ => false,
        },
{
    let mut path = copy_range(&info.user, 0, info.user.len());
    path.push('/');
    let path = concat_chars(&path, &info.project);
    proof {
        reveal_strlit("/");
    }
    assert(path@ =~= info.user@ + "/"@ + info.project@);
    let reference = match info.committish {
        Some(c) => Some(c),
        None => copy_opt(split),
    };
    build_git_source(repo, &info.host, &path, reference)
}

/// Parses a Git source (see `spec_parse_git_url`); `None` for a source
/// that is not a Git source or does not parse.
pub fn parse_git_url(source: &str) -> (r: Option<GitSource>)
    ensures
        match (r, spec_parse_git_url(source@)) {
            (Some(g), Some(v)) => git_view(g) == v && g.pinned == (g.reference is Some),
            (None, None) => true,
            _ => false,
        },
{
    proof {
        reveal_strlit("git:");
        reveal_strlit("#");
        reveal_strlit("https://");
        assert("git:"@.len() == 4);
    }
    let trimmed = trim_chars(&chars_of(source));
    let has_prefix = starts_with_str(&trimmed, "git:");
    let url = if has_prefix {
        let rest = copy_range(&trimmed, 4, trimmed.len());
        assert(rest@ =~= trimmed@.skip(4));
        trim_chars(&rest)
    } else {
        trimmed
    };
    if !has_prefix {
        let lower = crate::effects::ascii_lowercase_chars(&url);
        if !(starts_with_str(&lower, "https://") || starts_with_str(&lower, "http://") || starts_with_str(&lower, "ssh://") || starts_with_str(&lower, "git://")) {
            return None;
        }
    }
    let (rnr, split) = split_ref(&url);
    let first = match &split {
        Some(r) => {
            let mut c = copy_range(&rnr, 0, rnr.len());
            c.push('#');
            let c = concat_chars(&c, r);
            assert(c@ =~= rnr@ + "#"@ + r@);
            c
        },
        None => copy_range(&rnr, 0, rnr.len()),
    };
    assert(rnr@.subrange(0, rnr@.len() as int) =~= rnr@);
    if let Some(info) = accepted_exec(&first, &split) {
        let https = !(starts_with_str(&rnr, "http://") || starts_with_str(&rnr, "https://") || starts_with_str(&rnr, "ssh://")
            || starts_with_str(&rnr, "git://") || starts_with_str(&rnr, "git@"));
        let repo = if https { concat_chars(&chars_of("https://"), &rnr) } else { copy_range(&rnr, 0, rnr.len()) };
        return source_from_hosted(&repo, info, &split);
    }
    let https_rnr = concat_chars(&chars_of("https://"), &rnr);
    if let Some(r) = &split {
        let mut c = copy_range(&https_rnr, 0, https_rnr.len());
        c.push('#');
        let c = concat_chars(&c, r);
        assert(c@ =~= "https://"@ + rnr@ + "#"@ + r@);
        if let Some(info) = accepted_exec(&c, &split) {
            return source_from_hosted(&https_rnr, info, &split);
        }
    }
    if !starts_with_str(&url, "https://") {
        let c = concat_chars(&chars_of("https://"), &url);
        if let Some(info) = accepted_exec(&c, &split) {
            return source_from_hosted(&https_rnr, info, &split);
        }
    }
    parse_generic_git_url(&url, split)
}

// ---------------------------------------------------------------------------
// The current branch
// ---------------------------------------------------------------------------

/// `s` without its trailing `/`s.
pub open spec fn trim_trailing_slashes(s: Seq<char>) -> Seq<char>
    decreases s.len(),
{
    if s.len() > 0 && s.last() == '/' { trim_trailing_slashes(s.drop_last()) } else { s }
}

proof fn lemma_trim_trailing_slashes(s: Seq<char>)
    ensures
        trim_trailing_slashes(s).len() <= s.len(),
        trim_trailing_slashes(s) == s.take(trim_trailing_slashes(s).len() as int),
        trim_trailing_slashes(s).len() < s.len() ==> s.len() > 0 && s.last() == '/',
        trim_trailing_slashes(s).len() == 0 ==> forall|i: int| 0 <= i < s.len() ==> s[i] == '/',
    decreases s.len(),
{
    if s.len() > 0 && s.last() == '/' {
        lemma_trim_trailing_slashes(s.drop_last());
        let t = trim_trailing_slashes(s.drop_last());
        assert(s.drop_last().take(t.len() as int) =~= s.take(t.len() as int));
        if t.len() == 0 {
            assert forall|i: int| 0 <= i < s.len() implies s[i] == '/' by {
                if i < s.len() - 1 {
                    assert(s.drop_last()[i] == s[i]);
                }
            }
        }
    } else {
        assert(s.take(s.len() as int) =~= s);
    }
}

/// The parent folder of a path: without trailing `/`s, the part before
/// the last `/`; `/` when that is the first character or nothing is
/// left; `.` when there is no `/`.
pub open spec fn spec_dirname(path: Seq<char>) -> Seq<char> {
    let t = trim_trailing_slashes(path);
    if t.len() == 0 {
        seq!['/']
    } else {
        match last_index(t, '/') {
            Some(i) => if i == 0 { seq!['/'] } else { t.take(i) },
            None => seq!['.'],
        }
    }
}

/// The parent folder of a path (see `spec_dirname`).
pub fn dirname(path: &str) -> (r: String)
    ensures
        r@ == spec_dirname(path@),
{
    let v = chars_of(path);
    let mut n = v.len();
    assert(v@.take(n as int) =~= v@);
    while n > 0 && v[n - 1] == '/'
        invariant
            n <= v@.len(),
            trim_trailing_slashes(v@.take(n as int)) == trim_trailing_slashes(v@),
        decreases n,
    {
        assert(v@.take(n as int).drop_last() =~= v@.take(n - 1));
        n -= 1;
    }
    let t = copy_range(&v, 0, n);
    assert(t@ =~= v@.take(n as int));
    if t.len() == 0 {
        let r = vec!['/'];
        assert(r@ =~= seq!['/']);
        return string_of(r.as_slice());
    }
    match rfind_char(&t, '/') {
        Some(0) => {
            let r = vec!['/'];
            assert(r@ =~= seq!['/']);
            string_of(r.as_slice())
        },
        Some(i) => {
            let r = copy_range(&t, 0, i);
            assert(r@ =~= t@.take(i as int));
            string_of(r.as_slice())
        },
        None => {
            let r = vec!['.'];
            assert(r@ =~= seq!['.']);
            string_of(r.as_slice())
        },
    }
}

/// What `HEAD` says: a branch, a broken `.invalid` branch (ask git), or
/// a detached head.
pub enum HeadState {
    Branch(String),
    AskGit,
    Detached,
}

/// What a `HEAD` file's (trimmed) content says: `ref: refs/heads/<b>`
/// names branch `<b>` (`.invalid` means ask git); anything else is
/// detached.
pub open spec fn spec_head_state(content: Seq<char>) -> Option<Seq<char>> {
    let t = spec_trim(content);
    if starts_with(t, "ref: refs/heads/"@) { Some(t.skip(16)) } else { None }
}

/// Reads the branch from a `HEAD` file's content.
pub fn head_state(content: &str) -> (r: HeadState)
    ensures
        match (r, spec_head_state(content@)) {
            (HeadState::Branch(b), Some(name)) => b@ == name && name != ".invalid"@,
            (HeadState::AskGit, Some(name)) => name == ".invalid"@,
            (HeadState::Detached, None) => true,
            _ => false,
        },
{
    proof {
        reveal_strlit("ref: refs/heads/");
        assert("ref: refs/heads/"@.len() == 16);
    }
    let t = trim_chars(&chars_of(content));
    if !starts_with_str(&t, "ref: refs/heads/") {
        return HeadState::Detached;
    }
    let name = copy_range(&t, 16, t.len());
    assert(name@ =~= t@.skip(16));
    if is_lit(&name, ".invalid") {
        HeadState::AskGit
    } else {
        HeadState::Branch(string_of(name.as_slice()))
    }
}

/// The branch shown for a repository: none when `HEAD` could not be read;
/// the branch `HEAD` names; for a `.invalid` branch, what
/// `git symbolic-ref` printed (when it printed a name), else `detached`;
/// `detached` for a detached head.
pub open spec fn spec_resolve_branch(head: Option<Seq<char>>, symbolic_ref: Option<Seq<char>>) -> Option<Seq<char>> {
    match head {
        None => None,
        Some(content) => match spec_head_state(content) {
            Some(name) => if name == ".invalid"@ {
                match symbolic_ref {
                    Some(b) => Some(b),
                    None => Some("detached"@),
                }
            } else {
                Some(name)
            },
            None => Some("detached"@),
        },
    }
}

/// The branch shown for a repository (see `spec_resolve_branch`);
/// `symbolic_ref` is consulted only for a `.invalid` branch.
pub fn resolve_git_branch_sync(head: Option<&str>, symbolic_ref: Option<&str>) -> (r: Option<String>)
    ensures
        match (r, spec_resolve_branch(match head { Some(h) => Some(h@), None => None }, match symbolic_ref { Some(b) => Some(b@), None => None })) {
            (Some(a), Some(b)) => a@ == b,
            (None, None) => true,
            _ => false,
        },
{
    let content = match head {
        Some(h) => h,
        None => return None,
    };
    match head_state(content) {
        HeadState::Branch(b) => Some(b),
        HeadState::AskGit => match symbolic_ref {
            Some(b) => Some(string_of(chars_of(b).as_slice())),
            None => Some(string_of(chars_of("detached").as_slice())),
        },
        HeadState::Detached => Some(string_of(chars_of("detached").as_slice())),
    }
}

/// A folder's distance measure for walking up: each parent that differs
/// from its folder is smaller.
pub open spec fn climb_measure(d: Seq<char>) -> nat {
    if d.len() == 0 { 3 } else if d == seq!['.'] { 0 } else { d.len() + 1 }
}

proof fn lemma_dirname_climbs(d: Seq<char>)
    ensures
        spec_dirname(d) != d ==> climb_measure(spec_dirname(d)) < climb_measure(d),
{
    let t = trim_trailing_slashes(d);
    lemma_trim_trailing_slashes(d);
    crate::text::lemma_last_index_before(t, '/', t.len() as int);
    if spec_dirname(d) != d {
        if t.len() == 0 {
            if d.len() > 0 {
                assert(d[0] == '/');
                if d.len() == 1 {
                    assert(d =~= seq!['/']);
                }
            }
        } else {
            assert(t =~= d.take(t.len() as int));
            if t.len() < d.len() {
                assert(d.last() == '/');
            } else {
                assert(t =~= d);
            }
            assert(t.last() != '/') by {
                if t.last() == '/' {
                    lemma_trim_fixed(d);
                }
            }
            match last_index(t, '/') {
                Some(i) => {
                    assert(t[i] == '/');
                    assert(d[i] == t[i]);
                    assert(d != seq!['.']) by {
                        if d == seq!['.'] {
                            assert(d[i] == '.');
                        }
                    }
                    if i == 0 {
                        assert(t.len() >= 2);
                    } else {
                        assert(t.take(i).len() > 0);
                    }
                },
                None => {},
            }
        }
    }
}

proof fn lemma_trim_fixed(s: Seq<char>)
    ensures
        trim_trailing_slashes(s).len() > 0 ==> trim_trailing_slashes(s).last() != '/',
    decreases s.len(),
{
    if s.len() > 0 && s.last() == '/' {
        lemma_trim_fixed(s.drop_last());
    }
}

/// The folder reached from `d` by `k` steps up.
pub open spec fn climbed(d: Seq<char>, k: nat) -> Seq<char>
    decreases k,
{
    if k == 0 { d } else { spec_dirname(climbed(d, (k - 1) as nat)) }
}

/// Where a repository was found: its folder, its common Git folder and
/// its `HEAD` file.
pub struct GitPaths {
    pub repo_dir: String,
    pub common_git_dir: String,
    pub head_path: String,
}

fn join_lit(a: &Vec<char>, lit: &str) -> (r: Vec<char>)
    ensures
        r@ == a@ + lit@,
{
    concat_chars(a, &chars_of(lit))
}

/// A text option as plain values.
pub open spec fn opt_seq(o: Option<String>) -> Option<Seq<char>> {
    match o {
        Some(t) => Some(t@),
        None => None,
    }
}

/// `file_type` can answer `t` for the path `p`.
pub open spec fn type_answer<T: Fn(&str) -> Option<String>>(file_type: &T, p: Seq<char>, t: Option<Seq<char>>) -> bool {
    exists|q: &str, a: Option<String>| q@ == p && file_type.ensures((q,), a) && opt_seq(a) == t
}

/// `read_file` can answer `t` for the path `p`.
pub open spec fn read_answer<R: Fn(&str) -> Option<String>>(read_file: &R, p: Seq<char>, t: Option<Seq<char>>) -> bool {
    exists|q: &str, a: Option<String>| q@ == p && read_file.ensures((q,), a) && opt_seq(a) == t
}

/// `resolve` can answer `out` for the path `b` against the folder `a`.
pub open spec fn resolve_answer<P: Fn(&str, &str) -> String>(resolve: &P, a: Seq<char>, b: Seq<char>, out: Seq<char>) -> bool {
    exists|x: &str, y: &str, o: String| x@ == a && y@ == b && resolve.ensures((x, y), o) && o@ == out
}

/// The Git folder that a `.git` file's text names: what follows
/// `gitdir: ` once the text is trimmed, trimmed again.
pub open spec fn gitdir_target(content: Seq<char>) -> Seq<char> {
    spec_trim(spec_trim(content).skip(8))
}

/// At `dir` the walk goes on upward: its `.git` is neither a folder nor
/// a file, or it is a file that does not start with `gitdir: `.
pub open spec fn passes_over<R, T>(read_file: &R, file_type: &T, dir: Seq<char>) -> bool
    where
        R: Fn(&str) -> Option<String>,
        T: Fn(&str) -> Option<String>,
{
    let git = dir + "/.git"@;
    ||| exists|t: Option<Seq<char>>| type_answer(file_type, git, t) && t != Some("file"@) && t != Some("dir"@)
    ||| type_answer(file_type, git, Some("file"@)) && exists|c: Seq<char>| read_answer(read_file, git, Some(c))
        && !starts_with(spec_trim(c), "gitdir: "@)
}

/// `g` is what the walk finds at `dir`: a `.git` folder with a `HEAD`,
/// or a `.git` file naming a Git folder with a `HEAD` (and its common
/// folder: the one its `commondir` file names, else itself).
pub open spec fn found_at<R, T, P>(read_file: &R, file_type: &T, resolve: &P, dir: Seq<char>, g: GitPaths) -> bool
    where
        R: Fn(&str) -> Option<String>,
        T: Fn(&str) -> Option<String>,
        P: Fn(&str, &str) -> String,
{
    let git = dir + "/.git"@;
    &&& g.repo_dir@ == dir
    &&& {
        ||| type_answer(file_type, git, Some("dir"@)) && g.common_git_dir@ == git && g.head_path@ == git + "/HEAD"@
            && exists|t: Seq<char>| type_answer(file_type, git + "/HEAD"@, Some(t))
        ||| type_answer(file_type, git, Some("file"@)) && exists|c: Seq<char>, gd: Seq<char>| {
            &&& read_answer(read_file, git, Some(c))
            &&& starts_with(spec_trim(c), "gitdir: "@)
            &&& resolve_answer(resolve, dir, gitdir_target(c), gd)
            &&& g.head_path@ == gd + "/HEAD"@
            &&& exists|t: Seq<char>| type_answer(file_type, gd + "/HEAD"@, Some(t))
            &&& {
                ||| type_answer(file_type, gd + "/commondir"@, None) && g.common_git_dir@ == gd
                ||| exists|t: Seq<char>, x: Seq<char>| type_answer(file_type, gd + "/commondir"@, Some(t))
                    && read_answer(read_file, gd + "/commondir"@, Some(x))
                    && resolve_answer(resolve, gd, spec_trim(x), g.common_git_dir@)
            }
        }
    }
}

/// At `dir` the walk gives up: a `.git` file that cannot be read, a Git
/// folder without `HEAD`, or a `commondir` file that cannot be read.
pub open spec fn fails_at<R, T, P>(read_file: &R, file_type: &T, resolve: &P, dir: Seq<char>) -> bool
    where
        R: Fn(&str) -> Option<String>,
        T: Fn(&str) -> Option<String>,
        P: Fn(&str, &str) -> String,
{
    let git = dir + "/.git"@;
    ||| type_answer(file_type, git, Some("dir"@)) && type_answer(file_type, git + "/HEAD"@, None)
    ||| type_answer(file_type, git, Some("file"@)) && read_answer(read_file, git, None)
    ||| type_answer(file_type, git, Some("file"@)) && exists|c: Seq<char>, gd: Seq<char>| {
        &&& read_answer(read_file, git, Some(c))
        &&& starts_with(spec_trim(c), "gitdir: "@)
        &&& resolve_answer(resolve, dir, gitdir_target(c), gd)
        &&& {
            ||| type_answer(file_type, gd + "/HEAD"@, None)
            ||| (exists|t: Seq<char>| type_answer(file_type, gd + "/HEAD"@, Some(t))) && (exists|t: Seq<char>|
                type_answer(file_type, gd + "/commondir"@, Some(t))) && read_answer(read_file, gd + "/commondir"@, None)
        }
    }
}

/// The walk passed over the `j`-th folder up from `cwd` and climbed on.
pub open spec fn climbed_past<R, T>(read_file: &R, file_type: &T, cwd: Seq<char>, j: nat) -> bool
    where
        R: Fn(&str) -> Option<String>,
        T: Fn(&str) -> Option<String>,
{
    passes_over(read_file, file_type, climbed(cwd, j)) && climbed(cwd, j + 1) != climbed(cwd, j)
}

/// Walks up from `cwd` to the first folder with a `.git` folder (its
/// `HEAD` must exist) or a `.git` file naming its Git folder as
/// `gitdir: <path>` (resolved against the folder; a `commondir` file in
/// it names the common folder). `file_type` answers `"file"`, `"dir"` or
/// another kind, or nothing when the path does not exist; `read_file`
/// gives a file's text or nothing; `resolve` resolves a path against a
/// folder. The result is stated in terms of what these answered.
pub fn find_git_paths<R, T, P>(cwd: &str, read_file: &R, file_type: &T, resolve: &P) -> (r: Option<GitPaths>)
    where
        R: Fn(&str) -> Option<String>,
        T: Fn(&str) -> Option<String>,
        P: Fn(&str, &str) -> String,
    requires
        forall|p: &str| #[trigger] read_file.requires((p,)),
        forall|p: &str| #[trigger] file_type.requires((p,)),
        forall|a: &str, b: &str| #[trigger] resolve.requires((a, b)),
    ensures
        r matches Some(g) ==> (exists|k: nat| climbed(cwd@, k) == g.repo_dir@) && crate::path::ends_with(g.head_path@, "/HEAD"@),
        r matches Some(g) ==> exists|k: nat| {
            &&& forall|j: nat| j < k ==> #[trigger] climbed_past(read_file, file_type, cwd@, j)
            &&& found_at(read_file, file_type, resolve, climbed(cwd@, k), g)
        },
        r is None ==> exists|k: nat| {
            &&& forall|j: nat| j < k ==> #[trigger] climbed_past(read_file, file_type, cwd@, j)
            &&& {
                ||| fails_at(read_file, file_type, resolve, climbed(cwd@, k))
                ||| passes_over(read_file, file_type, climbed(cwd@, k)) && spec_dirname(climbed(cwd@, k)) == climbed(cwd@, k)
            }
        },
{
    proof {
        reveal_strlit("/HEAD");
        reveal_strlit("gitdir: ");
        assert("gitdir: "@.len() == 8);
    }
    let mut dir = chars_of(cwd);
    let ghost mut k: nat = 0;
    loop
        invariant
            forall|p: &str| #[trigger] read_file.requires((p,)),
            forall|p: &str| #[trigger] file_type.requires((p,)),
            forall|a: &str, b: &str| #[trigger] resolve.requires((a, b)),
            climbed(cwd@, k) == dir@,
            forall|j: nat| j < k ==> #[trigger] climbed_past(read_file, file_type, cwd@, j),
        decreases climb_measure(dir@),
    {
        let dir_s = string_of(dir.as_slice());
        let git_path = string_of(join_lit(&dir, "/.git").as_slice());
        let gp = git_path.as_str();
        let answer = file_type(gp);
        assert(type_answer(file_type, dir@ + "/.git"@, opt_seq(answer)));
        let kind = match answer {
            Some(t) => t,
            None => string_of(Vec::<char>::new().as_slice()),
        };
        let kind_chars = chars_of(kind.as_str());
        proof {
            reveal_strlit("file");
            reveal_strlit("dir");
            assert("file"@.len() == 4 && "dir"@.len() == 3);
            if answer is None {
                assert(kind@.len() == 0);
            } else {
                assert(kind@ == answer->Some_0@);
            }
        }
        if is_lit(&kind_chars, "file") {
            assert(opt_seq(answer) == Some("file"@));
            let read = read_file(gp);
            assert(read_answer(read_file, dir@ + "/.git"@, opt_seq(read)));
            let content = match read {
                Some(c) => c,
                None => {
                    assert(fails_at(read_file, file_type, resolve, climbed(cwd@, k)));
                    return None;
                },
            };
            let t = trim_chars(&chars_of(content.as_str()));
            if starts_with_str(&t, "gitdir: ") {
                proof {
                    reveal_strlit("gitdir: ");
                    assert("gitdir: "@.len() == 8);
                }
                let rest = copy_range(&t, 8, t.len());
                assert(rest@ =~= t@.skip(8));
                let target = string_of(trim_chars(&rest).as_slice());
                let git_dir = resolve(dir_s.as_str(), target.as_str());
                assert(resolve_answer(resolve, dir@, gitdir_target(content@), git_dir@));
                let git_dir_chars = chars_of(git_dir.as_str());
                let head = join_lit(&git_dir_chars, "/HEAD");
                assert(head@.skip(head@.len() - "/HEAD"@.len()) =~= "/HEAD"@);
                let head_path = string_of(head.as_slice());
                let head_type = file_type(head_path.as_str());
                assert(type_answer(file_type, git_dir@ + "/HEAD"@, opt_seq(head_type)));
                if head_type.is_none() {
                    assert(fails_at(read_file, file_type, resolve, climbed(cwd@, k)));
                    return None;
                }
                assert(exists|t: Seq<char>| type_answer(file_type, git_dir@ + "/HEAD"@, Some(t))) by {
                    assert(type_answer(file_type, git_dir@ + "/HEAD"@, Some(head_type->Some_0@)));
                }
                let common_path = string_of(join_lit(&git_dir_chars, "/commondir").as_slice());
                let common_type = file_type(common_path.as_str());
                assert(type_answer(file_type, git_dir@ + "/commondir"@, opt_seq(common_type)));
                let common_git_dir = match common_type {
                    Some(ct) => {
                        assert(type_answer(file_type, git_dir@ + "/commondir"@, Some(ct@)));
                        let text_read = read_file(common_path.as_str());
                        assert(read_answer(read_file, git_dir@ + "/commondir"@, opt_seq(text_read)));
                        let text = match text_read {
                            Some(x) => x,
                            None => {
                                assert(fails_at(read_file, file_type, resolve, climbed(cwd@, k)));
                                return None;
                            },
                        };
                        let trimmed = string_of(trim_chars(&chars_of(text.as_str())).as_slice());
                        let cm = resolve(git_dir.as_str(), trimmed.as_str());
                        assert(resolve_answer(resolve, git_dir@, spec_trim(text@), cm@));
                        cm
                    },
                    None => git_dir,
                };
                let g = GitPaths { repo_dir: dir_s, common_git_dir, head_path };
                assert(found_at(read_file, file_type, resolve, climbed(cwd@, k), g));
                return Some(g);
            }
            assert(passes_over(read_file, file_type, dir@)) by {
                assert(read_answer(read_file, dir@ + "/.git"@, Some(content@)));
            }
        } else if is_lit(&kind_chars, "dir") {
            assert(opt_seq(answer) == Some("dir"@));
            let head = join_lit(&chars_of(git_path.as_str()), "/HEAD");
            assert(head@.skip(head@.len() - "/HEAD"@.len()) =~= "/HEAD"@);
            let head_path = string_of(head.as_slice());
            let head_type = file_type(head_path.as_str());
            assert(type_answer(file_type, dir@ + "/.git"@ + "/HEAD"@, opt_seq(head_type)));
            if head_type.is_none() {
                assert(fails_at(read_file, file_type, resolve, climbed(cwd@, k)));
                return None;
            }
            let g = GitPaths { repo_dir: dir_s, common_git_dir: git_path, head_path };
            assert(type_answer(file_type, dir@ + "/.git"@ + "/HEAD"@, Some(head_type->Some_0@)));
            assert(found_at(read_file, file_type, resolve, climbed(cwd@, k), g));
            return Some(g);
        } else {
            assert(passes_over(read_file, file_type, dir@)) by {
                assert(opt_seq(answer) != Some("file"@) && opt_seq(answer) != Some("dir"@)) by {
                    if answer is Some {
                        assert(kind@ == answer->Some_0@);
                    }
                }
            }
        }
        let parent = chars_of(dirname(dir_s.as_str()).as_str());
        if crate::text::chars_eq(&parent, &dir) {
            return None;
        }
        proof {
            lemma_dirname_climbs(dir@);
            assert(climbed_past(read_file, file_type, cwd@, k));
            k = k + 1;
        }
        dir = parent;
    }
}
} // verus!
