use base64::engine::general_purpose::URL_SAFE_NO_PAD;
use base64::Engine;
use sha2::{Digest, Sha256};
use yaiko::oauth::{OAuthCallback, OAuthProvider, OAuthState, PkceChallenge};

#[test]
fn pkce_uses_s256_and_matches_rfc7636_derivation() {
    let pkce = PkceChallenge::generate();
    assert!(pkce.verifier.len() >= 43);
    assert_eq!(pkce.method, "S256");
    assert_eq!(pkce.challenge, URL_SAFE_NO_PAD.encode(Sha256::digest(pkce.verifier.as_bytes())));
}

#[test]
fn authorization_url_contains_encoded_security_parameters() {
    let provider = OAuthProvider {
        authorization_endpoint: "https://id.example/authorize".into(),
        client_id: "client id".into(),
        redirect_uri: "https://app.example/callback".into(),
        scopes: vec!["openid".into(), "profile".into()],
    };
    let state = OAuthState { value: "state-123".into(), created_at: 0 };
    let pkce = PkceChallenge::generate();
    let url = provider.authorization_url(&state, &pkce);
    assert!(url.starts_with("https://id.example/authorize?"));
    assert!(url.contains("client_id=client%20id"));
    assert!(url.contains("response_type=code"));
    assert!(url.contains("code_challenge_method=S256"));
    assert!(url.contains("state=state%2D123"));
}

#[test]
fn callback_requires_exact_state_match_and_state_has_expiry() {
    let expected = OAuthState { value: "state".into(), created_at: 100 };
    let callback = OAuthCallback { code: "code".into(), state: "state".into() };
    assert!(callback.validate_state(&expected));
    assert!(!OAuthCallback { state: "other".into(), ..callback.clone() }.validate_state(&expected));
    assert!(expected.is_fresh(120, 30));
    assert!(!expected.is_fresh(131, 30));
}

#[test]
fn full_authorization_url_and_generated_state() {
    let provider = OAuthProvider {
        authorization_endpoint: "https://id.example/a?x=1".into(),
        client_id: "c".into(),
        redirect_uri: "https://r/".into(),
        scopes: vec!["a".into(), "b".into()],
    };
    let state = OAuthState { value: "s".into(), created_at: 0 };
    let pkce = PkceChallenge { verifier: "v".into(), challenge: "ch_1".into(), method: "S256".into() };
    assert_eq!(
        provider.authorization_url(&state, &pkce),
        "https://id.example/a?x=1&response_type=code&client_id=c&redirect_uri=https%3A%2F%2Fr%2F&scope=a%20b&state=s&code_challenge=ch%5F1&code_challenge_method=S256"
    );
    let generated = OAuthState::generate();
    assert_eq!(generated.value.len(), 32);
    assert!(!expected_future().is_fresh(5, 100));
}

fn expected_future() -> OAuthState {
    OAuthState { value: "x".into(), created_at: 10 }
}
