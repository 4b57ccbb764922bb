//! The connecting side: normalizing the service address.
//!
//! A host may be given with or without the `.onion` suffix; dialling wants
//! it with the suffix, the registry key is the address without it. The
//! session itself — raw terminal on one end, the network stream on the
//! other — is the bridge of `crate::bridge`, with the escape filter on the
//! operator-facing leg.

use vstd::prelude::*;
use vstd::string::StringExecFns;
use vstd::string::StrSliceExecFns;

verus! {

/// The address suffix, `.onion`.
pub open spec fn onion_suffix() -> Seq<char> {
    seq!['.', 'o', 'n', 'i', 'o', 'n']
}

/// Whether `h` ends with the `.onion` suffix.
pub open spec fn ends_with_onion(h: Seq<char>) -> bool {
    h.len() >= 6 && h.subrange(h.len() - 6, h.len() as int) == onion_suffix()
}

/// A host normalized for dialling: itself if it already ends with the
/// suffix, else with the suffix appended.
pub open spec fn spec_normalized_host(h: Seq<char>) -> Seq<char> {
    if ends_with_onion(h) {
        h
    } else {
        h + onion_suffix()
    }
}

/// A host with every trailing `.onion` suffix removed — the registry key
/// of an address.
pub open spec fn spec_stripped_host(h: Seq<char>) -> Seq<char>
    decreases h.len(),
{
    if ends_with_onion(h) {
        spec_stripped_host(h.take(h.len() - 6))
    } else {
        h
    }
}

/// Whether the first `m` characters of `host` end with the suffix.
fn has_onion_suffix_at(host: &str, m: usize) -> (r: bool)
    requires
        m <= host@.len(),
    ensures
        r == ends_with_onion(host@.take(m as int)),
{
    let n = host.unicode_len();
    if m < 6 {
        return false;
    }
    let m0 = host.get_char(m - 6) == '.';
    let m1 = host.get_char(m - 5) == 'o';
    let m2 = host.get_char(m - 4) == 'n';
    let m3 = host.get_char(m - 3) == 'i';
    let m4 = host.get_char(m - 2) == 'o';
    let m5 = host.get_char(m - 1) == 'n';
    let r = m0 && m1 && m2 && m3 && m4 && m5;
    proof {
        let t = host@.take(m as int);
        let sub = t.subrange(t.len() - 6, t.len() as int);
        assert(sub[0] == host@[m - 6]);
        assert(sub[1] == host@[m - 5]);
        assert(sub[2] == host@[m - 4]);
        assert(sub[3] == host@[m - 3]);
        assert(sub[4] == host@[m - 2]);
        assert(sub[5] == host@[m - 1]);
        if r {
            assert(sub =~= onion_suffix());
        } else {
            if sub == onion_suffix() {
                assert(sub[0] == '.');
                assert(sub[1] == 'o');
                assert(sub[2] == 'n');
                assert(sub[3] == 'i');
                assert(sub[4] == 'o');
                assert(sub[5] == 'n');
            }
        }
    }
    r
}

/// Normalize a host for dialling: append `.onion` unless it is already
/// there.
pub fn normalize_onion_host(host: &str) -> (r: String)
    ensures
        r@ == spec_normalized_host(host@),
{
    let n = host.unicode_len();
    let has = has_onion_suffix_at(host, n);
    proof {
        assert(host@.take(n as int) =~= host@);
    }
    if has {
        String::from_str(host)
    } else {
        let mut s = String::from_str(host);
        s.append(".onion");
        proof {
            reveal_strlit(".onion");
            assert(".onion"@ =~= onion_suffix());
        }
        s
    }
}

/// The registry key of a host: every trailing `.onion` suffix removed.
pub fn strip_onion_suffix(host: &str) -> (r: String)
    ensures
        r@ == spec_stripped_host(host@),
{
    let n = host.unicode_len();
    let mut m: usize = n;
    proof {
        assert(host@.take(n as int) =~= host@);
    }
    while has_onion_suffix_at(host, m)
        invariant
            m <= n,
            n == host@.len(),
            spec_stripped_host(host@) == spec_stripped_host(host@.take(m as int)),
        decreases m,
    {
        m = m - 6;
        proof {
            assert(host@.take(m + 6).take(m as int) =~= host@.take(m as int));
        }
    }
    String::from_str(host.substring_char(0, m))
}

/// Law: normalization is idempotent — a normalized host is unchanged by a
/// second normalization, since it always ends with the suffix.
pub proof fn lemma_normalize_idempotent(h: Seq<char>)
    ensures
        ends_with_onion(spec_normalized_host(h)),
        spec_normalized_host(spec_normalized_host(h)) == spec_normalized_host(h),
{
    if !ends_with_onion(h) {
        let e = h + onion_suffix();
        assert(e.subrange(e.len() - 6, e.len() as int) =~= onion_suffix());
    }
}

/// Law: stripping undoes normalization — the registry key of a normalized
/// host is the key of the host itself.
pub proof fn lemma_strip_after_normalize(h: Seq<char>)
    ensures
        spec_stripped_host(spec_normalized_host(h)) == spec_stripped_host(h),
    decreases h.len(),
{
    if !ends_with_onion(h) {
        let e = h + onion_suffix();
        assert(e.subrange(e.len() - 6, e.len() as int) =~= onion_suffix());
        assert(e.take(e.len() - 6) =~= h);
    }
}

} // verus!
