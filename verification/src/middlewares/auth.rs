use vstd::prelude::*;
use vstd::string::*;

use crate::text::{chars_of, is_white, lemma_split_without_sep, lemma_trim_unchanged, split, split_bounds, trim, trim_bounds};

verus! {

/// The claims a session token carries.
pub struct Claims {
    pub user_id: String,
    pub exp: usize,
}

/// The user a request was authenticated for.
pub struct AuthenticatedUser(pub String);

/// An answer that turns a request away.
pub struct Rejection {
    pub status: u16,
    pub message: &'static str,
}

/// `token=`
pub open spec fn token_prefix() -> Seq<char> {
    seq!['t', 'o', 'k', 'e', 'n', '=']
}

/// The value of the first piece whose trimmed text starts with `token=`.
pub open spec fn token_in(pieces: Seq<Seq<char>>) -> Option<Seq<char>>
    decreases pieces.len(),
{
    if pieces.len() == 0 {
        None
    } else if trim(pieces[0]).len() >= 6 && trim(pieces[0]).take(6) == token_prefix() {
        Some(trim(pieces[0]).skip(6))
    } else {
        token_in(pieces.drop_first())
    }
}

/// The session token a `Cookie` header carries: the value of the first
/// `;`-separated cookie that reads `token=...` once trimmed.
pub open spec fn cookie_token(header: Seq<char>) -> Option<Seq<char>> {
    token_in(split(header, ';'))
}

/// Whether `s[a..b]` starts with `token=`.
fn starts_with_token(s: &Vec<char>, a: usize, b: usize) -> (r: bool)
    requires
        a <= b <= s@.len(),
    ensures
        r == (s@.subrange(a as int, b as int).len() >= 6 && s@.subrange(a as int, b as int).take(6) == token_prefix()),
{
    if b - a < 6 {
        return false;
    }
    let r = s[a] == 't' && s[a + 1] == 'o' && s[a + 2] == 'k' && s[a + 3] == 'e' && s[a + 4] == 'n' && s[a + 5] == '=';
    proof {
        let t = s@.subrange(a as int, b as int).take(6);
        if r {
            assert(t =~= token_prefix());
        } else {
            if t == token_prefix() {
                assert(t[0] == s@[a as int] && t[1] == s@[a + 1] && t[2] == s@[a + 2] && t[3] == s@[a + 3] && t[4] == s@[a
                    + 4] && t[5] == s@[a + 5]);
            }
        }
    }
    r
}

/// The session token in a `Cookie` header, when some cookie reads
/// `token=...`.
pub fn token_from_cookie_header(header: &str) -> (r: Option<String>)
    ensures
        match r {
            Some(t) => cookie_token(header@) == Some(t@),
            None => cookie_token(header@) is None,
        },
{
    let cs = chars_of(header);
    let pieces = split_bounds(&cs, ';');
    let ghost all = split(cs@, ';');
    let n = pieces.len();
    let mut k: usize = 0;
    assert(all.skip(0) =~= all);
    while k < n
        invariant
            n == pieces@.len(),
            n == all.len(),
            cs@ == header@,
            all == split(cs@, ';'),
            k <= n,
            forall|j: int|
                0 <= j < pieces@.len() ==> (#[trigger] pieces@[j]).0 <= pieces@[j].1 <= cs@.len() && cs@.subrange(
                    pieces@[j].0 as int,
                    pieces@[j].1 as int,
                ) == all[j],
            token_in(all) == token_in(all.skip(k as int)),
        decreases n - k,
    {
        let (lo, hi) = pieces[k];
        let (a, b) = trim_bounds(&cs, lo, hi);
        proof {
            assert(all.skip(k as int)[0] == all[k as int]);
            assert(all.skip(k as int).drop_first() =~= all.skip(k + 1));
        }
        if starts_with_token(&cs, a, b) {
            let t = header.substring_char(a + 6, b);
            assert(t@ =~= cs@.subrange(a as int, b as int).skip(6));
            return Some(String::from_str(t));
        }
        k = k + 1;
    }
    None
}

/// The session token of a request, taken from its `Cookie` header; a request
/// without one is turned away as unauthorized with "missing token".
pub fn session_token(cookie_header: Option<&str>) -> (r: Result<String, Rejection>)
    ensures
        match cookie_header {
            Some(h) => match cookie_token(h@) {
                Some(t) => r matches Ok(s) && s@ == t,
                None => r matches Err(e) && e.status == 401 && e.message@ == "missing token"@,
            },
            None => r matches Err(e) && e.status == 401 && e.message@ == "missing token"@,
        },
{
    match cookie_header {
        Some(h) => match token_from_cookie_header(h) {
            Some(t) => Ok(t),
            None => Err(Rejection { status: 401, message: "missing token" }),
        },
        None => Err(Rejection { status: 401, message: "missing token" }),
    }
}

/// The user of a session whose token was decoded into `claims`; a token that
/// did not decode is turned away as unauthorized with "invalid token".
pub fn session_user(claims: Option<Claims>) -> (r: Result<String, Rejection>)
    ensures
        match claims {
            Some(c) => r == Ok::<String, Rejection>(c.user_id),
            None => r matches Err(e) && e.status == 401 && e.message@ == "invalid token"@,
        },
{
    match claims {
        Some(c) => Ok(c.user_id),
        None => Err(Rejection { status: 401, message: "invalid token" }),
    }
}

/// The cookie header that a browser sends back for the session cookie alone,
/// `token=<t>`, gives back the token `t`, for a token with no `;` and no
/// white space in it (as a signed session token has none).
pub proof fn law_session_cookie_reads_back(t: Seq<char>)
    requires
        forall|i: int| 0 <= i < t.len() ==> t[i] != ';' && !is_white(#[trigger] t[i]),
    ensures
        cookie_token(token_prefix() + t) == Some(t),
{
    let s = token_prefix() + t;
    assert forall|i: int| 0 <= i < s.len() implies s[i] != ';' by {
        if i >= 6 {
            assert(s[i] == t[i - 6]);
        }
    }
    lemma_split_without_sep(s, ';');
    assert(s[0] == 't');
    if t.len() > 0 {
        assert(s.last() == t[t.len() - 1]);
    } else {
        assert(s.last() == '=');
    }
    lemma_trim_unchanged(s);
    assert(s.take(6) =~= token_prefix());
    assert(s.skip(6) =~= t);
    let pieces = split(s, ';');
    assert(pieces[0] == s);
}

impl AuthenticatedUser {
    /// The authenticated user that an earlier layer recorded for the
    /// request; without one the request is turned away with "unauthorized".
    pub fn from_extension(user_id: Option<String>) -> (r: Result<AuthenticatedUser, Rejection>)
        ensures
            match user_id {
                Some(u) => r matches Ok(a) && a.0 == u,
                None => r matches Err(e) && e.status == 401 && e.message@ == "unauthorized"@,
            },
    {
        match user_id {
            Some(u) => Ok(AuthenticatedUser(u)),
            None => Err(Rejection { status: 401, message: "unauthorized" }),
        }
    }
}

} // verus!
