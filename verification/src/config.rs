//! Configuration resolution: the API base URL (optional override with a
//! fixed default, trailing separators stripped) and the bearer token
//! (required; absence is an immediate error, before any transport work).
//!
//! The process environment is read outside the library; these functions take
//! the looked-up values as plain `Option<String>` arguments.

use vstd::prelude::*;

verus! {

/// `s` with every trailing `'/'` removed and nothing else changed.
pub open spec fn strip_trailing_slashes(s: Seq<char>) -> Seq<char>
    decreases s.len(),
{
    if s.len() > 0 && s[s.len() - 1] == '/' {
        strip_trailing_slashes(s.drop_last())
    } else {
        s
    }
}

/// What stripping does, exactly: the result is a prefix of the input, it
/// does not end in `'/'`, and everything cut off was `'/'` — nothing else
/// changes.
pub proof fn lemma_strip_exactly_trailing(s: Seq<char>)
    ensures
        strip_trailing_slashes(s).len() <= s.len(),
        strip_trailing_slashes(s) == s.take(strip_trailing_slashes(s).len() as int),
        strip_trailing_slashes(s).len() > 0 ==> strip_trailing_slashes(s).last() != '/',
        forall|k: int| strip_trailing_slashes(s).len() <= k < s.len() ==> s[k] == '/',
    decreases s.len(),
{
    if s.len() > 0 && s[s.len() - 1] == '/' {
        lemma_strip_exactly_trailing(s.drop_last());
        let r = strip_trailing_slashes(s);
        assert(r == strip_trailing_slashes(s.drop_last()));
        assert(s.drop_last().take(r.len() as int) =~= s.take(r.len() as int));
        assert forall|k: int| r.len() <= k < s.len() implies s[k] == '/' by {
            if k < s.len() - 1 {
                assert(s.drop_last()[k] == s[k]);
            }
        }
    } else {
        assert(s.take(s.len() as int) =~= s);
    }
}

/// The base URL used when no override is configured.
pub open spec fn spec_default_base_url() -> Seq<char> {
    "https://mail.dynmsl.com/api/public"@
}

/// The error reported when the required token is not configured.
pub open spec fn spec_missing_token_message() -> Seq<char> {
    "Missing DX888_MAIL_API_TOKEN"@
}

/// The base URL: the override when present, else the default, with every
/// trailing `'/'` stripped so that appending `"/<endpoint>"` never doubles
/// the separator.
pub fn resolve_base_url(override_url: Option<String>) -> (r: String)
    ensures
        r@ == match override_url {
            Some(u) => strip_trailing_slashes(u@),
            None => strip_trailing_slashes(spec_default_base_url()),
        },
{
    let s: String = match override_url {
        Some(u) => u,
        None => String::from_str("https://mail.dynmsl.com/api/public"),
    };
    let n: usize = s.as_str().unicode_len();
    let mut k: usize = n;
    proof {
        assert(s@.take(n as int) =~= s@);
    }
    while k > 0 && s.as_str().get_char(k - 1) == '/'
        invariant
            k <= n,
            n == s@.len(),
            strip_trailing_slashes(s@) == strip_trailing_slashes(s@.take(k as int)),
        decreases k,
    {
        proof {
            assert(s@.take(k as int).drop_last() =~= s@.take(k - 1));
        }
        k = k - 1;
    }
    proof {
        if k > 0 {
            assert(s@.take(k as int)[k - 1] == s@[k - 1]);
        }
        assert(strip_trailing_slashes(s@.take(k as int)) == s@.take(k as int));
    }
    let out: &str = s.as_str().substring_char(0, k);
    out.to_owned()
}

/// The bearer token: the configured value when present; otherwise the
/// descriptive error, with no other work done.
pub fn resolve_token(token: Option<String>) -> (r: Result<String, String>)
    ensures
        match token {
            Some(t) => r matches Ok(s) && s@ == t@,
            None => r matches Err(m) && m@ == spec_missing_token_message(),
        },
{
    match token {
        Some(t) => Ok(t),
        None => Err(String::from_str("Missing DX888_MAIL_API_TOKEN")),
    }
}

} // verus!
