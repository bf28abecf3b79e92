use faust::document::{describe, Status};
use faust::render::safe_url;
use faust::vault::{keeps_remembered, resolve_target, vault_candidates, vault_fallback, Target};

#[test]
fn marker_search_climbs_to_home_and_stops() {
    let dirs = vault_candidates("/home/me/vault/notes/a.md", Some("/home/me"));
    assert_eq!(dirs, ["/home/me/vault/notes", "/home/me/vault", "/home/me"]);
    let all = vault_candidates("/srv/a/b.md", None);
    assert_eq!(all, ["/srv/a", "/srv", "/"]);
    assert_eq!(vault_fallback("/srv/a/b.md"), "/srv/a");
    assert_eq!(vault_fallback("/"), ".");
}

#[test]
fn a_note_inside_the_remembered_vault_keeps_it() {
    assert!(keeps_remembered("/v/notes/a.md", "/v", true));
    assert!(!keeps_remembered("/v/notes/a.md", "/v", false));
    assert!(!keeps_remembered("/w/a.md", "/v", true));
    assert!(!keeps_remembered("/vault/a.md", "/v", true));
}

#[test]
fn arguments_resolve_to_a_vault_or_a_note() {
    assert!(matches!(resolve_target("/v".to_owned(), true, true, String::new()), Ok(Target::Vault(p)) if p == "/v"));
    assert!(matches!(
        resolve_target("/v/a.md".to_owned(), false, true, "/v".to_owned()),
        Ok(Target::Note { vault, note }) if vault == "/v" && note == "/v/a.md"
    ));
    assert!(matches!(resolve_target("/nope".to_owned(), false, false, String::new()), Err(e) if e == "/nope does not exist"));
}

#[test]
fn statuses_explain_themselves() {
    assert_eq!(describe(&Status::Ready), "");
    assert_eq!(describe(&Status::Missing), "file no longer exists");
    assert_eq!(describe(&Status::TooLarge(5 << 20)), "file is too large to preview (5 MiB)");
    assert_eq!(describe(&Status::Binary), "binary file");
    assert_eq!(describe(&Status::Error("denied".to_owned())), "cannot read file: denied");
}

#[test]
fn only_web_and_mail_links_leave_the_app() {
    assert!(safe_url("https://example.com"));
    assert!(safe_url("http://x"));
    assert!(safe_url("mailto:me@example.com"));
    assert!(!safe_url("file:///etc/passwd"));
    assert!(!safe_url("/etc/passwd"));
    assert!(!safe_url("http:/"));
}
