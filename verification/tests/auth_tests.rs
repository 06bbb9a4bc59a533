use base64::Engine;
use nordconf::auth::{basic_auth_header, interpret_credentials_response, is_valid_token};
use nordconf::errors::ConfigError;

#[test]
fn auth_token_shape_accepts_64_hex() {
    let tok = "0123456789abcdefABCDEF0123456789abcdef0123456789abcdef0123456789";
    assert_eq!(tok.len(), 64);
    assert!(is_valid_token(tok));
}

#[test]
fn auth_token_shape_rejects_bad_input() {
    assert!(!is_valid_token(""));
    assert!(!is_valid_token("abc"));
    let not_hex = "g123456789abcdefABCDEF0123456789abcdef0123456789abcdef012345678";
    assert!(!is_valid_token(&format!("{}9", not_hex)));
    let short = "0123456789abcdef0123456789abcdef0123456789abcdef0123456789abcde";
    assert_eq!(short.len(), 63);
    assert!(!is_valid_token(short));
}

#[test]
fn auth_header_encodes_token_prefix() {
    // base64("token:abc") is dG9rZW46YWJj; the input must not come
    // back unchanged
    assert_eq!(basic_auth_header("abc"), "Basic dG9rZW46YWJj");
}

#[test]
fn auth_header_matches_reference_encoder() {
    for tok in ["", "abc", "0123456789abcdef"] {
        let expected = format!(
            "Basic {}",
            base64::engine::general_purpose::STANDARD.encode(format!("token:{}", tok))
        );
        assert_eq!(basic_auth_header(tok), expected);
    }
}

#[test]
fn auth_response_401_is_rejected_token() {
    let r = interpret_credentials_response(401, Some("key".to_string()));
    match r {
        Err(ConfigError::AccessTokenError(m)) => assert_eq!(m, "Invalid access token"),
        _ => panic!("expected an access token error"),
    }
}

#[test]
fn auth_response_missing_key_is_unusable_token() {
    let r = interpret_credentials_response(200, None);
    match r {
        Err(ConfigError::AccessTokenError(m)) => {
            assert_eq!(m, "Access token is not valid for WireGuard configuration")
        }
        _ => panic!("expected an access token error"),
    }
}

#[test]
fn auth_response_with_key_succeeds() {
    let r = interpret_credentials_response(200, Some("privkey".to_string()));
    match r {
        Ok(k) => assert_eq!(k, "privkey"),
        _ => panic!("expected the private key"),
    }
}
