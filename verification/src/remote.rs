//! Repository identities read from git remotes, for the GitHub and GitLab adapters.

use vstd::prelude::*;
use vstd::string::StringSliceAdditionalSpecFns;
use crate::text::{
    chars_of, contains_char, msg3, opt_text, push_char, split_char, split_on, strip_prefix_of,
    strip_prefix_str, texts, trim, trim_end_char, trim_end_char_str, trim_str, without_suffix,
    without_suffix_str,
};

verus! {

broadcast use vstd::string::group_string_axioms;

/// `owner/name` when `slug` splits on `/` into exactly two non-empty parts.
pub open spec fn two_part_slug(slug: Seq<char>) -> Option<Seq<char>> {
    let parts = split_on(slug, '/');
    if parts.len() == 2 && parts[0].len() > 0 && parts[1].len() > 0 {
        Some(parts[0] + seq!['/'] + parts[1])
    } else {
        None
    }
}

/// Whether `repo` is an `owner/repo` slug: exactly two non-empty parts.
pub open spec fn spec_valid_repo_slug(repo: Seq<char>) -> bool {
    two_part_slug(repo) is Some
}

/// The repository path after one of the GitHub remote prefixes.
pub open spec fn github_path(remote: Seq<char>) -> Option<Seq<char>> {
    if strip_prefix_of(remote, "git@github.com:"@) is Some {
        strip_prefix_of(remote, "git@github.com:"@)
    } else if strip_prefix_of(remote, "https://github.com/"@) is Some {
        strip_prefix_of(remote, "https://github.com/"@)
    } else if strip_prefix_of(remote, "http://github.com/"@) is Some {
        strip_prefix_of(remote, "http://github.com/"@)
    } else {
        strip_prefix_of(remote, "ssh://git@github.com/"@)
    }
}

/// The `owner/repo` slug of a GitHub remote URL: the path after the host,
/// without a `.git` suffix or trailing slashes, when it has exactly two parts.
pub open spec fn spec_repo_from_remote(remote: Seq<char>) -> Option<Seq<char>> {
    match github_path(remote) {
        Some(path) => two_part_slug(trim_end_char(without_suffix(path, ".git"@), '/')),
        None => None,
    }
}

/// The project path after one of the gitlab.com remote prefixes.
pub open spec fn gitlab_path(remote: Seq<char>) -> Option<Seq<char>> {
    if strip_prefix_of(remote, "git@gitlab.com:"@) is Some {
        strip_prefix_of(remote, "git@gitlab.com:"@)
    } else if strip_prefix_of(remote, "ssh://git@gitlab.com/"@) is Some {
        strip_prefix_of(remote, "ssh://git@gitlab.com/"@)
    } else if strip_prefix_of(remote, "https://gitlab.com/"@) is Some {
        strip_prefix_of(remote, "https://gitlab.com/"@)
    } else {
        strip_prefix_of(remote, "http://gitlab.com/"@)
    }
}

/// The `namespace/project` path of a gitlab.com remote URL: the trimmed remote
/// without trailing slashes, after the host, without a `.git` suffix; kept when
/// it holds a `/` and neither starts nor ends with one.
pub open spec fn spec_project_from_remote(remote: Seq<char>) -> Option<Seq<char>> {
    match gitlab_path(trim_end_char(trim(remote), '/')) {
        Some(path) => {
            let project = without_suffix(path, ".git"@);
            if project.contains('/') && !(project.len() > 0 && project[0] == '/') && !(
            project.len() > 0 && project.last() == '/') {
                Some(project)
            } else {
                None
            }
        },
        None => None,
    }
}

fn two_part(slug: &str) -> (r: Option<String>)
    ensures
        opt_text(r) == two_part_slug(slug@),
{
    let parts = split_char(slug, '/');
    proof {
        assert(texts(parts@) == split_on(slug@, '/'));
    }
    if parts.len() == 2 {
        assert(texts(parts@)[0] == parts@[0]@ && texts(parts@)[1] == parts@[1]@);
        if parts[0].as_str().unicode_len() > 0 && parts[1].as_str().unicode_len() > 0 {
            let out = msg3(parts[0].as_str(), "/", parts[1].as_str());
            proof {
                reveal_strlit("/");
                assert("/"@ =~= seq!['/']);
            }
            return Some(out);
        }
    }
    None
}

/// Whether `repo` is an `owner/repo` slug.
pub fn valid_repo_slug(repo: &str) -> (r: bool)
    ensures
        r == spec_valid_repo_slug(repo@),
{
    two_part(repo).is_some()
}

fn github_path_of(remote: &str) -> (r: Option<String>)
    ensures
        opt_text(r) == github_path(remote@),
{
    let a = strip_prefix_str(remote, "git@github.com:");
    if a.is_some() {
        return a;
    }
    let b = strip_prefix_str(remote, "https://github.com/");
    if b.is_some() {
        return b;
    }
    let c = strip_prefix_str(remote, "http://github.com/");
    if c.is_some() {
        return c;
    }
    strip_prefix_str(remote, "ssh://git@github.com/")
}

/// The `owner/repo` slug of a GitHub remote URL, when it names one.
pub fn repo_from_remote(remote: &str) -> (r: Option<String>)
    ensures
        opt_text(r) == spec_repo_from_remote(remote@),
{
    match github_path_of(remote) {
        Some(path) => {
            let bare = without_suffix_str(path.as_str(), ".git");
            let slug = trim_end_char_str(bare.as_str(), '/');
            two_part(slug.as_str())
        },
        None => None,
    }
}

fn gitlab_path_of(remote: &str) -> (r: Option<String>)
    ensures
        opt_text(r) == gitlab_path(remote@),
{
    let a = strip_prefix_str(remote, "git@gitlab.com:");
    if a.is_some() {
        return a;
    }
    let b = strip_prefix_str(remote, "ssh://git@gitlab.com/");
    if b.is_some() {
        return b;
    }
    let c = strip_prefix_str(remote, "https://gitlab.com/");
    if c.is_some() {
        return c;
    }
    strip_prefix_str(remote, "http://gitlab.com/")
}

/// The `namespace/project` path of a gitlab.com remote URL, when it names one.
pub fn project_from_remote(remote: &str) -> (r: Option<String>)
    ensures
        opt_text(r) == spec_project_from_remote(remote@),
{
    let trimmed = trim_str(remote);
    let cut = trim_end_char_str(trimmed.as_str(), '/');
    match gitlab_path_of(cut.as_str()) {
        Some(path) => {
            let project = without_suffix_str(path.as_str(), ".git");
            let v = chars_of(project.as_str());
            let has_slash = contains_char(project.as_str(), '/');
            let first_slash = v.len() > 0 && v[0] == '/';
            let last_slash = v.len() > 0 && v[v.len() - 1] == '/';
            if has_slash && !first_slash && !last_slash {
                Some(project)
            } else {
                None
            }
        },
        None => None,
    }
}

/// Bytes that a URL path keeps as they are.
pub open spec fn unreserved(b: u8) -> bool {
    (65 <= b <= 90) || (97 <= b <= 122) || (48 <= b <= 57) || b == 45 || b == 46 || b == 95 || b
        == 126
}

/// The upper-case hexadecimal digit of `d < 16`.
pub open spec fn hex_upper(d: u8) -> char {
    if d < 10 {
        (48 + d) as char
    } else {
        (55 + d) as char
    }
}

/// One byte, kept or written as `%XY`.
pub open spec fn encoded_byte(b: u8) -> Seq<char> {
    if unreserved(b) {
        seq![b as char]
    } else {
        seq!['%', hex_upper(b / 16), hex_upper(b % 16)]
    }
}

/// Every byte encoded in turn.
pub open spec fn percent_encoded(bytes: Seq<u8>) -> Seq<char>
    decreases bytes.len(),
{
    if bytes.len() == 0 {
        Seq::empty()
    } else {
        percent_encoded(bytes.drop_last()) + encoded_byte(bytes.last())
    }
}

fn hex_digit_upper(d: u8) -> (c: char)
    requires
        d < 16,
    ensures
        c == hex_upper(d),
{
    if d < 10 {
        (48 + d) as char
    } else {
        (55 + d) as char
    }
}

/// The project path percent-encoded byte by byte, so that it names one API
/// identifier: unreserved bytes stay, every other byte becomes `%XY`.
pub fn encode_project(project: &str) -> (encoded: String)
    ensures
        encoded@ == percent_encoded(project.spec_bytes()),
{
    let bytes = project.as_bytes();
    let mut encoded = String::new();
    let mut i: usize = 0;
    while i < bytes.len()
        invariant
            i <= bytes@.len(),
            bytes@ == project.spec_bytes(),
            encoded@ == percent_encoded(bytes@.take(i as int)),
        decreases bytes.len() - i,
    {
        let byte = bytes[i];
        let ghost before = encoded@;
        if (65 <= byte && byte <= 90) || (97 <= byte && byte <= 122) || (48 <= byte && byte <= 57)
            || byte == 45 || byte == 46 || byte == 95 || byte == 126 {
            push_char(&mut encoded, byte as char);
        } else {
            push_char(&mut encoded, '%');
            push_char(&mut encoded, hex_digit_upper(byte / 16));
            push_char(&mut encoded, hex_digit_upper(byte % 16));
        }
        assert(bytes@.take(i + 1).drop_last() =~= bytes@.take(i as int));
        assert(encoded@ =~= before + encoded_byte(byte));
        i += 1;
    }
    assert(bytes@.take(bytes@.len() as int) =~= bytes@);
    encoded
}

} // verus!
