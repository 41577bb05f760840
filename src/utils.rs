use vstd::prelude::*;

verus! {

/// The absolute expiry time of an entry written at `now` with a time-to-live
/// of `millis` milliseconds; a sum past the largest timestamp stays there.
pub open spec fn expiry_time(now: u64, millis: u64) -> u64 {
    if now + millis > u64::MAX {
        u64::MAX
    } else {
        (now + millis) as u64
    }
}

/// The moment `millis` milliseconds after `now`.
pub fn future_time(now: u64, millis: u64) -> (r: u64)
    ensures
        r == expiry_time(now, millis),
{
    now.saturating_add(millis)
}

/// An `Authorization` header value grants access when it is the bearer
/// scheme followed by exactly the configured key.
pub open spec fn bearer_matches(header: Seq<char>, api_key: Seq<char>) -> bool {
    header == "Bearer "@ + api_key
}

/// Relies on str::strip_prefix: the rest of `s` after `p` exactly when `s`
/// starts with `p`.
#[verifier::external_body]
fn strip_prefix<'a>(s: &'a str, p: &str) -> (r: Option<&'a str>)
    ensures
        match r {
            Some(rest) => p@.is_prefix_of(s@) && rest@ == s@.subrange(p@.len() as int, s@.len() as int),
            None => !p@.is_prefix_of(s@),
        },
{
    s.strip_prefix(p)
}

/// Whether a request whose `Authorization` header is `header` (absent when
/// `None`) may use the cache guarded by `api_key`.
pub fn is_authorized(header: Option<&str>, api_key: &str) -> (r: bool)
    ensures
        r == match header {
            Some(h) => bearer_matches(h@, api_key@),
            None => false,
        },
{
    match header {
        None => false,
        Some(h) => {
            let scheme = "Bearer ";
            proof {
                reveal_strlit("Bearer ");
            }
            match strip_prefix(h, scheme) {
                None => {
                    assert(!bearer_matches(h@, api_key@)) by {
                        if bearer_matches(h@, api_key@) {
                            assert(h@.subrange(0, scheme@.len() as int) =~= scheme@);
                        }
                    }
                    false
                },
                Some(token) => {
                    assert(h@ =~= scheme@ + token@);
                    let r = token.to_owned() == api_key.to_owned();
                    proof {
                        if bearer_matches(h@, api_key@) {
                            assert(token@ =~= api_key@) by {
                                assert(token@ =~= h@.subrange(scheme@.len() as int, h@.len() as int));
                            }
                        }
                    }
                    r
                },
            }
        },
    }
}

} // verus!
