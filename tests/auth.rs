use screen_name_db::auth::{Access, Error, GitHub, Identity, IsProvider, Provider, Twitter, UserInfo};
use screen_name_db::inclusions::{self, Inclusions};

#[test]
fn provider_names() {
    assert_eq!(Provider::GitHub.prefix(), "gh");
    assert_eq!(Provider::Google.prefix(), "gc");
    assert_eq!(Provider::Twitter.name(), "twitter");
    assert_eq!(GitHub::provider(), Provider::GitHub);
    assert_eq!(Twitter::provider(), Provider::Twitter);
    assert_eq!(Access::Admin.name(), "admin");
    assert_eq!(Access::Gist.name(), "gist");
}

#[test]
fn identities_for_providers() {
    assert_eq!(Identity::for_provider(Provider::GitHub, "42", "x"), Ok(Identity::GitHub { id: 42 }));
    assert_eq!(Identity::for_provider(Provider::Twitter, "+7", "x"), Ok(Identity::Twitter { id: 7 }));
    assert_eq!(
        Identity::for_provider(Provider::GitHub, "4x", "x"),
        Err(Error::InvalidIdentifier("4x".to_string()))
    );
    assert_eq!(
        Identity::for_provider(Provider::Twitter, "18446744073709551616", "x"),
        Err(Error::InvalidIdentifier("18446744073709551616".to_string()))
    );
    assert_eq!(
        Identity::for_provider(Provider::Google, "", "a@b.c"),
        Ok(Identity::GoogleEmail { email: "a@b.c".to_string() })
    );
    assert_eq!(
        Identity::for_provider(Provider::Google, "sub1", "a@b.c"),
        Ok(Identity::Google { sub: "sub1".to_string() })
    );
    let long = "s".repeat(256);
    assert_eq!(Identity::for_provider(Provider::Google, &long, "n"), Err(Error::InvalidIdentifier(long.clone())));
    assert_eq!(Identity::Google { sub: "q".to_string() }.provider(), Provider::Google);
    assert_eq!(Identity::GoogleEmail { email: "q".to_string() }.provider(), Provider::Google);
}

#[test]
fn user_info_fields() {
    let gh = UserInfo::GitHub { id: 1015, username: "octo".to_string() };
    assert_eq!(gh.id_str(), "1015");
    assert_eq!(gh.name(), "octo");
    let tw = UserInfo::Twitter { id: 0, screen_name: "jack".to_string() };
    assert_eq!(tw.id_str(), "0");
    assert_eq!(tw.name(), "jack");
    let g = UserInfo::Google { sub: "abc".to_string(), email: "e@x".to_string() };
    assert_eq!(g.id_str(), "abc");
    assert_eq!(g.name(), "e@x");
}

#[test]
fn inclusions_from_lines() {
    let inc = Inclusions::from_lines(&vec!["12".to_string(), "34".to_string()]).unwrap();
    assert!(inc.contains(12));
    assert!(inc.contains(34));
    assert!(!inc.contains(5));
    assert_eq!(
        Inclusions::from_lines(&vec!["1".to_string(), "x".to_string(), "y".to_string()]).unwrap_err(),
        inclusions::Error::InvalidInclusionFileLine("x".to_string())
    );
}
