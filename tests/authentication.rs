use ratelmq::authentication::{
    credential_verdict, AuthenticationError, FileIdentityManager, FileIdentityManagerError,
};

const PASSWORD_HASH: &str =
    "$argon2id$v=19$m=256,t=2,p=1$c29tZXNhbHQ$nf65EOgLrQMR/uIPnA4rEsF5h7TKyQwu9U1bMCHGi/4";

fn manager() -> FileIdentityManager {
    let content = format!("alice:{}\r\nbob:not-a-hash\n", PASSWORD_HASH);
    FileIdentityManager::from_credentials(&content).unwrap()
}

#[test]
fn correct_password_is_accepted() {
    assert_eq!(manager().authenticate("alice", "password"), Ok(()));
}

#[test]
fn wrong_password_is_refused() {
    assert_eq!(manager().authenticate("alice", "wrong"), Err(AuthenticationError::InvalidPassword));
}

#[test]
fn unknown_user_is_refused() {
    assert_eq!(manager().authenticate("carol", "password"), Err(AuthenticationError::UserNotFound));
}

#[test]
fn unreadable_hash_is_a_provider_error() {
    assert_eq!(manager().authenticate("bob", "password"), Err(AuthenticationError::ProviderError));
}

#[test]
fn line_without_colon_is_invalid() {
    assert!(matches!(
        FileIdentityManager::from_credentials("alice:x\nbroken\n"),
        Err(FileIdentityManagerError::InvalidEntry)
    ));
}

#[test]
fn empty_file_has_no_users() {
    let m = FileIdentityManager::from_credentials("").unwrap();
    assert_eq!(m.authenticate("alice", "password"), Err(AuthenticationError::UserNotFound));
}

#[test]
fn last_line_for_a_user_counts() {
    let content = format!("alice:not-a-hash\nalice:{}", PASSWORD_HASH);
    let m = FileIdentityManager::from_credentials(&content).unwrap();
    assert_eq!(m.authenticate("alice", "password"), Ok(()));
}

#[test]
fn hash_may_hold_colons() {
    let m = FileIdentityManager::from_credentials("dave:a:b").unwrap();
    assert_eq!(m.authenticate("dave", "x"), Err(AuthenticationError::ProviderError));
}

#[test]
fn verdict_table() {
    assert_eq!(credential_verdict(false, true, true), Err(AuthenticationError::UserNotFound));
    assert_eq!(credential_verdict(true, false, true), Err(AuthenticationError::ProviderError));
    assert_eq!(credential_verdict(true, true, false), Err(AuthenticationError::InvalidPassword));
    assert_eq!(credential_verdict(true, true, true), Ok(()));
}
