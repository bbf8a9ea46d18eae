//! Token validation and per-channel authorisation.

use jsonwebtoken::{encode, EncodingKey, Header};
use serde_json::Value;
use ws_fanout::auth::{
    claims_from_entries, AllowAll, Authorizer, ClaimValue, Claims, HmacJwt, StaticToken,
    TokenValidator,
};

#[test]
fn static_token_accepts_only_its_token() {
    let v = StaticToken::new("secret", "alice");
    assert_eq!(v.validate("secret").unwrap().subject, "alice");
    assert!(v.validate("other").is_err());
}

#[test]
fn closures_are_authorizers() {
    let only_public = |c: &Claims, ch: &str| ch.starts_with("public:") || c.subject == "admin";
    assert!(only_public.may_subscribe(&Claims::new("bob"), "public:x"));
    assert!(!only_public.may_subscribe(&Claims::new("bob"), "private:x"));
    assert!(only_public.may_subscribe(&Claims::new("admin"), "private:x"));
}

fn token(secret: &[u8], sub: Value, exp_from_now: i64) -> String {
    let now = std::time::SystemTime::now()
        .duration_since(std::time::UNIX_EPOCH)
        .unwrap()
        .as_secs() as i64;
    let mut claims = serde_json::Map::new();
    claims.insert("sub".to_string(), sub);
    claims.insert("tier".to_string(), Value::String("pro".to_string()));
    claims.insert("exp".to_string(), Value::from(now + exp_from_now));
    encode(&Header::default(), &claims, &EncodingKey::from_secret(secret)).unwrap()
}

#[test]
fn hmac_jwt_round_trip() {
    let secret = b"test-secret";
    let token = token(secret, Value::String("alice".to_string()), 60);

    let v = HmacJwt::new(secret);
    let c = v.validate(&token).unwrap();
    assert_eq!(c.subject, "alice");
    assert_eq!(c.get_str("tier"), Some("pro"));
    assert!(v.validate("garbage").is_err());
    assert!(HmacJwt::new(b"wrong").validate(&token).is_err());
}

#[test]
fn hmac_jwt_keeps_sub_out_of_the_attributes() {
    let secret = b"test-secret";
    let c = HmacJwt::new(secret).validate(&token(secret, Value::String("alice".to_string()), 60)).unwrap();
    assert!(c.attributes.iter().all(|(name, _)| name != "sub"));
    assert_eq!(c.get_str("sub"), None);
    assert_eq!(c.get_str("exp"), None, "exp is a number, not a string");
    assert!(c.attributes.iter().any(|(name, v)| name == "exp" && matches!(v, ClaimValue::Json(_))));
}

#[test]
fn hmac_jwt_refuses_an_expired_token() {
    let secret = b"test-secret";
    let expired = token(secret, Value::String("alice".to_string()), -3600);
    assert_eq!(HmacJwt::new(secret).validate(&expired), Err("invalid token".to_string()));
}

#[test]
fn hmac_jwt_refuses_a_subject_that_is_not_a_string() {
    let secret = b"test-secret";
    let numeric = token(secret, Value::from(7), 60);
    assert_eq!(HmacJwt::new(secret).validate(&numeric), Err("invalid token".to_string()));
}

#[test]
fn static_token_refusal_says_only_that_it_was_refused() {
    let v = StaticToken::new("secret", "alice");
    assert_eq!(v.validate("secre"), Err("invalid token".to_string()));
    assert_eq!(v.validate(""), Err("invalid token".to_string()));
    let c = v.validate("secret").unwrap();
    assert!(c.attributes.is_empty());
}

#[test]
fn allow_all_allows_everything() {
    assert!(AllowAll.may_subscribe(&Claims::new("x"), "anything"));
    assert!(AllowAll.may_subscribe(&Claims::new(""), ""));
}

#[test]
fn get_str_reads_string_attributes_only() {
    let c = Claims {
        subject: "s".to_string(),
        attributes: vec![
            ("tier".to_string(), ClaimValue::Str("pro".to_string())),
            ("n".to_string(), ClaimValue::Json("3".to_string())),
        ],
    };
    assert_eq!(c.get_str("tier"), Some("pro"));
    assert_eq!(c.get_str("n"), None);
    assert_eq!(c.get_str("missing"), None);
}

#[test]
fn claims_from_entries_takes_the_sub_entry_as_subject() {
    let c = claims_from_entries(vec![
        ("exp".to_string(), ClaimValue::Json("9".to_string())),
        ("sub".to_string(), ClaimValue::Str("bob".to_string())),
        ("tier".to_string(), ClaimValue::Str("free".to_string())),
    ])
    .unwrap();
    assert_eq!(c.subject, "bob");
    assert_eq!(
        c.attributes,
        vec![
            ("exp".to_string(), ClaimValue::Json("9".to_string())),
            ("tier".to_string(), ClaimValue::Str("free".to_string())),
        ]
    );
    assert_eq!(
        claims_from_entries(vec![("tier".to_string(), ClaimValue::Str("x".to_string()))]),
        Err("invalid token".to_string())
    );
    assert_eq!(
        claims_from_entries(vec![("sub".to_string(), ClaimValue::Json("1".to_string()))]),
        Err("invalid token".to_string())
    );
}

#[test]
fn a_cloned_hmac_validator_checks_the_same_secret() {
    let secret = b"test-secret";
    let v = HmacJwt::new(secret).clone();
    let good = token(secret, Value::String("alice".to_string()), 60);
    assert_eq!(v.validate(&good).unwrap().subject, "alice");
    assert!(v.validate(&token(b"other", Value::String("alice".to_string()), 60)).is_err());
}

#[test]
fn hmac_jwt_requires_exp() {
    let secret = b"test-secret";
    let mut claims = serde_json::Map::new();
    claims.insert("sub".to_string(), Value::String("alice".to_string()));
    let no_exp = encode(&Header::default(), &claims, &EncodingKey::from_secret(secret)).unwrap();
    assert_eq!(HmacJwt::new(secret).validate(&no_exp), Err("invalid token".to_string()));
}
