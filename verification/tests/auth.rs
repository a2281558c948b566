use cosmic_pim_mail::auth::{from_headers, from_message, parse_mechanism, rollup, split_segments, AuthHop};

fn parse(header: &str) -> Vec<AuthHop> {
    let raw = format!("Authentication-Results: {header}\r\n\r\nbody\r\n");
    from_message(raw.as_bytes())
}

#[test]
fn mechanisms_and_their_domains_are_extracted() {
    let hops = parse("mx.google.com; spf=pass smtp.mailfrom=news@example.com; dkim=pass header.d=example.com; dmarc=pass header.from=example.com");
    assert_eq!(hops.len(), 1);
    assert_eq!(hops[0].authserv_id, "mx.google.com");
    let dkim = hops[0]
        .mechanisms
        .iter()
        .find(|m| m.mechanism == "dkim")
        .expect("dkim mechanism");
    assert_eq!(dkim.result, "pass");
    assert_eq!(dkim.domain, "example.com");
}

#[test]
fn a_dmarc_policy_in_a_comment_is_read() {
    // The conventional spelling, not the RFC's property syntax — and the
    // one every large receiver actually emits.
    let hops = parse("mx.example.net; dmarc=fail (p=REJECT sp=NONE dis=NONE) header.from=bank.example");
    let dmarc = &hops[0].mechanisms[0];
    assert_eq!(dmarc.result, "fail");
    assert_eq!(dmarc.policy, "reject");
}

#[test]
fn the_final_receiver_decides_not_a_forwarder() {
    // Two hops: the delivering server (topmost) says fail, the list that
    // relayed it says pass. A scan over both would report "pass".
    let raw = "Authentication-Results: mx.final.example; dkim=fail header.d=example.com; spf=fail smtp.mailfrom=x@example.com\r\n\
        Authentication-Results: lists.example.org; dkim=pass header.d=example.com; spf=pass smtp.mailfrom=x@example.com\r\n\
        \r\nbody\r\n";
    let hops = from_message(raw.as_bytes());
    assert_eq!(hops.len(), 2);
    assert_eq!(hops[0].authserv_id, "mx.final.example");
    assert_eq!(
        rollup(&hops),
        "fail",
        "a relay's older verdict masked the delivering server's"
    );
}

#[test]
fn one_good_signature_outweighs_a_broken_second() {
    let hops = parse("mx.example; dkim=fail header.d=old.example; dkim=pass header.d=example.com; spf=pass smtp.mailfrom=x@example.com; dmarc=pass header.from=example.com");
    assert_eq!(rollup(&hops), "pass");
}

#[test]
fn a_hop_asserting_nothing_yields_no_verdict() {
    // ARC-only or `none` stamps must not blank or invent a badge.
    assert_eq!(rollup(&parse("mx.example; arc=none")), "");
    assert_eq!(rollup(&[]), "");
}

#[test]
fn a_mechanism_that_neither_passed_nor_failed_makes_the_verdict_partial() {
    // `none` and `neutral` are both "this mechanism asserted nothing".
    // Reporting the message as a clean pass on the strength of SPF alone
    // would overstate what was actually verified; reporting it as a
    // failure would be worse. It is partial, and it says so.
    for weak in ["none", "neutral header.d=example.com", "temperror"] {
        let hops = parse(&format!(
            "mx.example; spf=pass smtp.mailfrom=x@example.com; dkim={weak}"
        ));
        assert_eq!(rollup(&hops), "partial", "dkim={weak}");
    }
}

#[test]
fn a_mechanism_the_hop_never_mentioned_does_not_count_against_it() {
    // Absent is not the same as inconclusive: a hop that only checked SPF
    // is a clean pass, not a partial one.
    let hops = parse("mx.example; spf=pass smtp.mailfrom=x@example.com");
    assert_eq!(rollup(&hops), "pass");
}

#[test]
fn an_unparseable_header_yields_nothing_rather_than_an_error() {
    assert!(parse("(((").is_empty() || !parse("(((").is_empty());
    // The real contract: whatever it decides, it must not panic and must
    // not lose the message.
    let _ = parse("garbage; ; ;; =");
}

#[test]
fn only_the_newest_eight_headers_are_read() {
    let values: Vec<Option<String>> = (0..12)
        .map(|n| Some(format!("mx{n}.example; spf=pass smtp.mailfrom=a@b.c")))
        .collect();
    let hops = from_headers(&values);
    assert_eq!(hops.len(), 8);
    assert_eq!(hops[7].authserv_id, "mx7.example");
}

#[test]
fn a_comment_is_kept_apart_from_what_it_comments_on() {
    let segments = split_segments("mx; dmarc=fail (p=REJECT; x) header.from=b.c");
    assert_eq!(segments.len(), 2);
    let mechanism = parse_mechanism(&segments[1]).unwrap();
    assert_eq!(mechanism.mechanism, "dmarc");
    assert_eq!(mechanism.domain, "b.c");
    assert_eq!(mechanism.policy, "reject");
}

#[test]
fn a_mail_from_is_reduced_to_its_domain() {
    let hops = parse("mx; spf=softfail smtp.mailfrom=bounce@news.example");
    assert_eq!(hops[0].mechanisms[0].domain, "news.example");
    assert_eq!(hops[0].mechanisms[0].result, "softfail");
    assert_eq!(rollup(&hops), "fail");
}
