use backtor::client::{normalize_onion_host, strip_onion_suffix};

#[test]
fn a_bare_host_gets_the_suffix() {
    assert_eq!(normalize_onion_host("abcdef").as_str(), "abcdef.onion");
}

#[test]
fn a_suffixed_host_is_unchanged() {
    assert_eq!(normalize_onion_host("abcdef.onion").as_str(), "abcdef.onion");
}

#[test]
fn normalization_is_idempotent() {
    let once = normalize_onion_host("somehost");
    let twice = normalize_onion_host(once.as_str());
    assert_eq!(once, twice);
}

#[test]
fn short_hosts_are_suffixed_too() {
    assert_eq!(normalize_onion_host("").as_str(), ".onion");
    assert_eq!(normalize_onion_host("a").as_str(), "a.onion");
}

#[test]
fn stripping_removes_the_suffix() {
    assert_eq!(strip_onion_suffix("abc.onion").as_str(), "abc");
    assert_eq!(strip_onion_suffix("abc").as_str(), "abc");
}

#[test]
fn stripping_removes_repeated_suffixes() {
    assert_eq!(strip_onion_suffix("a.onion.onion").as_str(), "a");
    assert_eq!(strip_onion_suffix(".onion").as_str(), "");
}

#[test]
fn stripping_undoes_normalization() {
    let host = "service";
    assert_eq!(
        strip_onion_suffix(normalize_onion_host(host).as_str()).as_str(),
        host
    );
}
