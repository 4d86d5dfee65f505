use tandem::writer::{WriterConflict, WriterRoles, DEFAULT_WRITER_TTL, MAX_WRITER_TTL};

#[test]
fn an_unheld_workspace_goes_to_whoever_asks() {
    let mut roles = WriterRoles::new();
    let role = roles.claim("agent-a", "daemon-1", DEFAULT_WRITER_TTL).expect("nobody held it");
    assert_eq!(role.holder, "daemon-1");
    assert_eq!(roles.current("agent-a").map(|r| r.holder).as_deref(), Some("daemon-1"));
}

#[test]
fn the_holder_renews_and_a_second_client_is_refused() {
    let mut roles = WriterRoles::new();
    roles.claim("agent-a", "daemon-1", DEFAULT_WRITER_TTL).expect("first claim");

    roles.claim("agent-a", "daemon-1", DEFAULT_WRITER_TTL).expect("the holder renews");

    let conflict = roles
        .claim("agent-a", "daemon-2", DEFAULT_WRITER_TTL)
        .expect_err("a second client is refused");
    assert_eq!(conflict.holder, "daemon-1");
    assert_eq!(conflict.workspace_id, "agent-a");
}

#[test]
fn an_unrenewed_claim_expires_and_the_next_client_takes_it() {
    let mut roles = WriterRoles::new();
    roles.claim("agent-a", "daemon-1", 0).expect("first claim");

    assert_eq!(roles.current("agent-a"), None, "the hold has run out");
    let role = roles
        .claim("agent-a", "daemon-2", DEFAULT_WRITER_TTL)
        .expect("an expired claim blocks nobody");
    assert_eq!(role.holder, "daemon-2");
}

#[test]
fn one_workspace_being_held_says_nothing_about_another() {
    let mut roles = WriterRoles::new();
    roles.claim("agent-a", "daemon-1", DEFAULT_WRITER_TTL).expect("agent-a");
    roles
        .claim("agent-b", "daemon-2", DEFAULT_WRITER_TTL)
        .expect("agent-b is a different workspace");
    let conflict = roles
        .claim("agent-a", "daemon-2", DEFAULT_WRITER_TTL)
        .expect_err("holding agent-b does not hand over agent-a");
    assert_eq!(conflict.holder, "daemon-1");
}

#[test]
fn a_ttl_past_the_ceiling_is_clamped() {
    let mut roles = WriterRoles::new();
    let role = roles.claim("agent-a", "daemon-1", MAX_WRITER_TTL * 3).expect("claim");
    assert_eq!(role.expires_in, MAX_WRITER_TTL);
}

#[test]
fn a_hold_lasts_until_the_moment_it_ends() {
    let mut roles = WriterRoles::new();
    let now = 5_000_000_000;
    roles.claim_at("w", "one", 1_000, now).expect("free");
    assert_eq!(roles.current_at("w", now + 999).map(|r| r.expires_in), Some(1));
    assert_eq!(roles.current_at("w", now + 1_000), None);
    let refused = roles.claim_at("w", "two", 1_000, now + 400).expect_err("held");
    assert_eq!(
        refused,
        WriterConflict { workspace_id: "w".to_string(), holder: "one".to_string(), expires_in: 600 }
    );
    assert_eq!(roles.claim_at("w", "two", 1_000, now + 1_000).expect("over").holder, "two");
}
