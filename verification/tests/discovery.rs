use cosmic_pim_mail::discovery::{
    autoconfig_urls, discover, domain_of, is_probe_host, is_public_v4, is_public_v6, known,
    parse_autoconfig, percent_encode, Reply, Source, Step,
};
use cosmic_pim_mail::imap::Security;

#[test]
fn the_table_answers_for_the_providers_most_people_have() {
    let found = known("someone@gmail.com").expect("gmail is in the table");
    assert_eq!(found.imap_host, "imap.gmail.com");
    assert_eq!(found.smtp_host, "smtp.gmail.com");
    assert_eq!(found.imap_port, 993);
    assert_eq!(found.source, Source::Known);
    assert_eq!(found.username, "someone@gmail.com");
}

#[test]
fn provider_aliases_resolve_to_the_same_settings() {
    // Somebody with a hotmail.com address is on Outlook and should not have
    // to know that.
    for address in ["a@hotmail.com", "a@live.com", "a@msn.com", "a@OUTLOOK.COM"] {
        let found = known(address).unwrap_or_else(|| panic!("{address}"));
        assert_eq!(found.imap_host, "outlook.office365.com", "{address}");
    }
    assert_eq!(
        known("a@googlemail.com").unwrap().imap_host,
        "imap.gmail.com"
    );
}

#[test]
fn a_provider_that_wants_starttls_gets_the_submission_port_for_it() {
    let found = known("a@outlook.com").unwrap();
    assert_eq!(found.smtp_port, 587);
    assert_eq!(found.smtp_security, Security::StartTls);

    let found = known("a@fastmail.com").unwrap();
    assert_eq!(found.smtp_port, 465);
    assert_eq!(found.smtp_security, Security::Tls);
}

#[test]
fn an_unknown_domain_is_not_answered_from_the_table() {
    assert!(known("a@example.com").is_none());
}

#[test]
fn the_guard_refuses_everything_that_could_probe_a_private_network() {
    // Without this, "add an account" is a way to make somebody's mail
    // client scan their own network and report back.
    for address in [
        "evil@127.0.0.1",
        "evil@10.0.0.1",
        "evil@192.168.1.1",
        "evil@169.254.1.1",
        "evil@127.1",
        "evil@localhost",
        "evil@host:8080",
        "evil@host/path",
        "evil@host#frag",
        "evil@[::1]",
        "evil@",
        "@example.com",
        "not-an-address",
        "two@at@signs.com",
    ] {
        assert!(
            domain_of(address).is_err(),
            "{address} was accepted for probing"
        );
    }
}

#[test]
fn the_guard_admits_ordinary_domains_and_folds_them() {
    assert_eq!(domain_of("a@Example.COM").unwrap(), "example.com");
    assert_eq!(
        domain_of("first.last+tag@mail.example.co.uk").unwrap(),
        "mail.example.co.uk"
    );
}

#[test]
fn a_derived_host_is_checked_as_strictly_as_the_typed_one() {
    // An autoconfig document is only as trustworthy as whoever published
    // it, and one naming localhost must not widen the probe surface.
    assert!(is_probe_host("imap.example.com"));
    assert!(!is_probe_host("localhost"));
    assert!(!is_probe_host("127.0.0.1"));
    assert!(!is_probe_host("10.0.0.5"));
    assert!(!is_probe_host("host:993"));
    assert!(!is_probe_host(""));
    assert!(
        is_probe_host("8.8.8.8"),
        "a public literal is admissible here"
    );
}

#[test]
fn an_autoconfig_document_is_read_for_what_it_says() {
    let xml = r#"<?xml version="1.0"?>
<clientConfig version="1.1">
  <emailProvider id="example.com">
<displayName>Example Mail</displayName>
<incomingServer type="pop3">
  <hostname>pop.example.com</hostname><port>995</port><socketType>SSL</socketType>
</incomingServer>
<incomingServer type="imap">
  <hostname>imap.example.com</hostname>
  <port>143</port>
  <socketType>STARTTLS</socketType>
  <username>%EMAILLOCALPART%</username>
</incomingServer>
<outgoingServer type="smtp">
  <hostname>smtp.example.com</hostname>
  <port>465</port>
  <socketType>SSL</socketType>
  <username>%EMAILADDRESS%</username>
</outgoingServer>
  </emailProvider>
</clientConfig>"#;

    let found = parse_autoconfig(xml, "ada@example.com").expect("parsed");
    assert_eq!(found.display_name, "Example Mail");
    assert_eq!(found.imap_host, "imap.example.com");
    assert_eq!(found.imap_port, 143);
    assert_eq!(found.imap_security, Security::StartTls);
    assert_eq!(
        found.username, "ada",
        "%EMAILLOCALPART% was not expanded, so the login will be rejected"
    );
    assert_eq!(found.smtp_host, "smtp.example.com");
    assert_eq!(found.smtp_port, 465);
    assert_eq!(found.smtp_security, Security::Tls);
    assert_eq!(found.source, Source::Autoconfig);
}

#[test]
fn a_pop3_only_document_is_not_an_answer() {
    // It is a real answer to a different question.
    let xml = r#"<clientConfig><emailProvider>
        <incomingServer type="pop3"><hostname>pop.example.com</hostname></incomingServer>
        <outgoingServer type="smtp"><hostname>smtp.example.com</hostname></outgoingServer>
    </emailProvider></clientConfig>"#;
    assert!(parse_autoconfig(xml, "a@example.com").is_none());
}

#[test]
fn an_autoconfig_document_naming_a_private_host_is_refused() {
    let xml = r#"<clientConfig><emailProvider>
        <incomingServer type="imap"><hostname>127.0.0.1</hostname><port>993</port></incomingServer>
        <outgoingServer type="smtp"><hostname>127.0.0.1</hostname><port>465</port></outgoingServer>
    </emailProvider></clientConfig>"#;
    assert!(parse_autoconfig(xml, "a@example.com").is_none());
}

#[test]
fn a_document_that_omits_ports_falls_back_to_the_convention() {
    let xml = r#"<clientConfig><emailProvider>
        <incomingServer type="imap"><hostname>imap.example.com</hostname></incomingServer>
        <outgoingServer type="smtp"><hostname>smtp.example.com</hostname></outgoingServer>
    </emailProvider></clientConfig>"#;
    let found = parse_autoconfig(xml, "a@example.com").unwrap();
    assert_eq!(found.imap_port, 993);
    assert_eq!(found.imap_security, Security::Tls);
    assert_eq!(
        found.username, "a@example.com",
        "the whole address by default"
    );
}

#[test]
fn rubbish_does_not_parse_into_a_configuration() {
    assert!(parse_autoconfig("", "a@example.com").is_none());
    assert!(parse_autoconfig("<html><body>404</body></html>", "a@example.com").is_none());
    assert!(parse_autoconfig("<clientConfig", "a@example.com").is_none());
}

#[test]
fn the_local_part_cannot_inject_url_syntax_into_a_probe() {
    // The domain is guarded; the local part is not, and `#` truncates a URL
    // to a fragment while `&` injects a parameter.
    let urls = autoconfig_urls("example.com", "a#b&c=d@example.com");
    for url in &urls {
        assert!(!url.contains('#'), "{url}");
        assert!(
            url.matches('&').count() == 0,
            "an extra parameter was injected: {url}"
        );
    }
}

#[test]
fn the_probe_order_puts_the_provider_first_and_mozilla_last() {
    // The provider's own document is authoritative and current; the ISPDB
    // is the mirror for providers that never published one.
    let urls = autoconfig_urls("example.com", "a@example.com");
    assert!(urls[0].starts_with("https://autoconfig.example.com/"));
    assert!(urls[1].starts_with("https://example.com/.well-known/"));
    assert!(urls[2].starts_with("https://autoconfig.thunderbird.net/"));
    assert!(urls.iter().all(|url| url.starts_with("https://")));
}

#[test]
fn a_table_provider_is_never_probed() {
    match discover("a@gmail.com", &[]).unwrap() {
        Step::Found(found) => assert_eq!(found.source, Source::Known),
        other => panic!("{other:?}"),
    }
}

#[test]
fn documents_come_first_and_guesses_last() {
    let mut replies: Vec<Reply> = Vec::new();
    let urls = autoconfig_urls("example.org", "a@example.org");
    for url in &urls {
        match discover("a@example.org", &replies).unwrap() {
            Step::Fetch(asked) => assert_eq!(&asked, url),
            other => panic!("{other:?}"),
        }
        replies.push(Reply::Document(None));
    }
    match discover("a@example.org", &replies).unwrap() {
        Step::Connect(host) => assert!(host.ends_with("example.org"), "{host}"),
        other => panic!("{other:?}"),
    }
    replies.push(Reply::Listening(true));
    match discover("a@example.org", &replies).unwrap() {
        Step::Found(found) => {
            assert_eq!(found.source, Source::Guessed);
            assert_eq!(found.imap_port, 993);
            assert_eq!(found.username, "a@example.org");
        }
        other => panic!("{other:?}"),
    }
}

#[test]
fn a_document_settles_the_lookup() {
    let xml = "<clientConfig><emailProvider>\
        <incomingServer type=\"imap\"><hostname>mail.example.org</hostname></incomingServer>\
        <outgoingServer type=\"smtp\"><hostname>mail.example.org</hostname></outgoingServer>\
        </emailProvider></clientConfig>";
    match discover("a@example.org", &[Reply::Document(Some(xml.to_owned()))]).unwrap() {
        Step::Found(found) => {
            assert_eq!(found.source, Source::Autoconfig);
            assert_eq!(found.imap_host, "mail.example.org");
        }
        other => panic!("{other:?}"),
    }
}

#[test]
fn a_lookup_that_nothing_answers_fails() {
    let mut replies = vec![Reply::Document(None), Reply::Document(None), Reply::Document(None)];
    for _ in 0..10 {
        match discover("a@example.org", &replies) {
            Ok(Step::Connect(_)) => replies.push(Reply::Listening(false)),
            Ok(other) => panic!("{other:?}"),
            Err(_) => return,
        }
    }
    panic!("the lookup never ended");
}

#[test]
fn an_address_that_fails_the_guard_is_refused_before_anything_is_asked() {
    assert!(discover("a@127.0.0.1", &[]).is_err());
}

#[test]
fn private_and_reserved_addresses_are_not_public() {
    for (a, b, c, d) in [
        (10, 0, 0, 1),
        (172, 16, 0, 1),
        (192, 168, 0, 1),
        (127, 0, 0, 1),
        (169, 254, 0, 1),
        (0, 0, 0, 0),
    ] {
        assert!(!is_public_v4(a, b, c, d), "{a}.{b}.{c}.{d}");
    }
    assert!(is_public_v4(1, 1, 1, 1));
    assert!(!is_public_v6([0, 0, 0, 0, 0, 0, 0, 1]));
    assert!(!is_public_v6([0xfe80, 0, 0, 0, 0, 0, 0, 1]));
    assert!(!is_public_v6([0xfd00, 0, 0, 0, 0, 0, 0, 1]));
    assert!(is_public_v6([0x2606, 0x4700, 0, 0, 0, 0, 0, 1]));
}

#[test]
fn what_a_url_reserves_is_percent_encoded_by_its_bytes() {
    assert_eq!(percent_encode("a-b_c.d~e"), "a-b_c.d~e");
    assert_eq!(percent_encode("a b@\u{e9}"), "a%20b%40%C3%A9");
}

#[test]
fn a_derived_host_of_digits_and_dots_has_to_be_a_public_address() {
    for host in ["127.1", "2130706433.", "0177.0.0.1", "1.2.3.4.5", "..."] {
        assert!(!is_probe_host(host), "{host}");
    }
    assert!(is_probe_host("1and1.example"));
}
