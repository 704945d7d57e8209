//! Where the store keeps its files: a directory named after the
//! application, or one the user configured.
use vstd::prelude::*;
use vstd::string::StringExecFns;

verus! {

/// What `str::trim` leaves of a string: it without leading and trailing
/// white space.
pub uninterp spec fn trimmed(s: Seq<char>) -> Seq<char>;

/// The characters with the Unicode White_Space property, which
/// `char::is_whitespace` tests.
pub open spec fn is_white_space(c: char) -> bool {
    let u = c as u32;
    (0x9 <= u && u <= 0xd) || u == 0x20 || u == 0x85 || u == 0xa0 || u == 0x1680 || (0x2000 <= u
        && u <= 0x200a) || u == 0x2028 || u == 0x2029 || u == 0x202f || u == 0x205f || u == 0x3000
}

/// Every character of the string is white space (so is the empty string).
pub open spec fn is_blank(s: Seq<char>) -> bool {
    forall|i: int| 0 <= i < s.len() ==> is_white_space(#[trigger] s[i])
}

/// Relies on `str::trim`: the string without leading and trailing white
/// space, which is empty exactly when every character is white space.
#[verifier::external_body]
fn trim(s: &str) -> (r: &str)
    ensures
        r@ == trimmed(s@),
        r@.len() == 0 <==> is_blank(s@),
{
    s.trim()
}

/// Whether the first character of `s` is `c`.
fn starts_with_char(s: &str, c: char) -> (r: bool)
    ensures
        r == (s@.len() > 0 && s@[0] == c),
{
    s.unicode_len() > 0 && s.get_char(0) == c
}

/// Whether the last character of `s` is `c`.
fn ends_with_char(s: &str, c: char) -> (r: bool)
    ensures
        r == (s@.len() > 0 && s@.last() == c),
{
    let n = s.unicode_len();
    n > 0 && s.get_char(n - 1) == c
}

/// A path is absolute when it starts at the root.
pub open spec fn is_absolute(p: Seq<char>) -> bool {
    p.len() > 0 && p[0] == '/'
}

/// `p` taken relative to `base`: an absolute `p` stands alone; otherwise
/// the two are joined by one separator.
pub open spec fn join_path(base: Seq<char>, p: Seq<char>) -> Seq<char> {
    if is_absolute(p) || base.len() == 0 {
        p
    } else if base.last() == '/' {
        base + p
    } else {
        base + seq!['/'] + p
    }
}

/// The data directory: a configured directory that is not blank, made
/// absolute against the current directory when one is known; otherwise
/// `.nockapp` under the home directory; `None` when there is neither.
pub open spec fn resolved_dir(
    configured: Option<Seq<char>>,
    current: Option<Seq<char>>,
    home: Option<Seq<char>>,
) -> Option<Seq<char>> {
    match configured {
        Some(d) if !is_blank(d) => if is_absolute(d) {
            Some(d)
        } else {
            match current {
                Some(c) => Some(join_path(c, d)),
                None => Some(d),
            }
        },
        _ => match home {
            Some(h) => Some(join_path(h, seq!['.', 'n', 'o', 'c', 'k', 'a', 'p', 'p'])),
            None => None,
        },
    }
}

/// The value of an optional string.
pub open spec fn opt_view(o: Option<&str>) -> Option<Seq<char>> {
    match o {
        Some(s) => Some(s@),
        None => None,
    }
}

/// `p` taken relative to `base`.
pub fn join(base: &str, p: &str) -> (r: String)
    ensures
        r@ == join_path(base@, p@),
{
    if starts_with_char(p, '/') || base.is_empty() {
        return p.to_owned();
    }
    let mut r = base.to_owned();
    if !ends_with_char(base, '/') {
        r.append("/");
        proof {
            reveal_strlit("/");
        }
    }
    r.append(p);
    r
}

/// The default directory for kernel data of the application `dir_name`:
/// `./.data.` followed by the name.
pub fn default_data_dir(dir_name: &str) -> (r: String)
    ensures
        r@ == seq!['.', '/', '.', 'd', 'a', 't', 'a', '.'] + dir_name@,
{
    let mut r = String::from_str("./.data.");
    proof {
        reveal_strlit("./.data.");
    }
    r.append(dir_name);
    r
}

/// The data directory, from the configured directory (if set), the current
/// directory (if known) and the home directory (if known).
pub fn resolve_data_dir(configured: Option<&str>, current: Option<&str>, home: Option<&str>) -> (r:
    Option<String>)
    ensures
        match resolved_dir(opt_view(configured), opt_view(current), opt_view(home)) {
            Some(p) => r is Some && r->0@ == p,
            None => r is None,
        },
{
    match configured {
        Some(d) => {
            if !trim(d).is_empty() {
                if starts_with_char(d, '/') {
                    return Some(d.to_owned());
                }
                return match current {
                    Some(c) => Some(join(c, d)),
                    None => Some(d.to_owned()),
                };
            }
        },
        None => {},
    }
    match home {
        Some(h) => {
            let r = join(h, ".nockapp");
            proof {
                reveal_strlit(".nockapp");
            }
            Some(r)
        },
        None => None,
    }
}

/// Resolution depends on its inputs alone, and an absolute configured
/// directory is the result whatever the current and home directories are: a
/// restarted process with the same setting finds the same directory.
pub proof fn lemma_resolution_stable(
    configured: Option<Seq<char>>,
    current1: Option<Seq<char>>,
    current2: Option<Seq<char>>,
    home1: Option<Seq<char>>,
    home2: Option<Seq<char>>,
)
    ensures
        current1 == current2 && home1 == home2 ==> resolved_dir(configured, current1, home1)
            == resolved_dir(configured, current2, home2),
        configured matches Some(d) && is_absolute(d) ==> resolved_dir(configured, current1, home1)
            == Some(configured->0) && resolved_dir(configured, current2, home2) == Some(
            configured->0,
        ),
{
    if configured matches Some(d) && is_absolute(d) {
        let d = configured->0;
        assert(!is_white_space(d[0]));
        assert(!is_blank(d));
    }
}

} // verus!
