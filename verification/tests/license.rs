use base64::engine::general_purpose::URL_SAFE_NO_PAD;
use base64::Engine;
use chrono::{Duration, Utc};
use bstseal::license::{
    has_fields, verify_license, verify_license_at, LicenseError, LicenseSettings, Moment, Tier,
};
use hmac::{Hmac, Mac};
use sha2::Sha256;

type HmacSha256 = Hmac<Sha256>;

fn sign(data: &str, secret: &str) -> String {
    let mut mac = HmacSha256::new_from_slice(secret.as_bytes()).unwrap();
    mac.update(data.as_bytes());
    let sig = URL_SAFE_NO_PAD.encode(mac.finalize().into_bytes());
    format!("{data}.{sig}")
}

/// helper to generate license inside tests
fn make_license(tier: &str, secret: &str) -> String {
    let uuid = "123e4567-e89b-12d3-a456-426614174000";
    let expires = (Utc::now() + Duration::days(365)).to_rfc3339();
    sign(&format!("{uuid}.{tier}.{expires}"), secret)
}

#[test]
fn verify_roundtrip() {
    let secret = "abc";
    let lic = make_license("solo", secret);
    let tier = verify_license(&lic, secret).unwrap();
    assert_eq!(tier, Tier::Solo);
}

#[test]
fn fail_on_wrong_sig() {
    let lic = "bad.license.signature";
    assert!(verify_license(lic, "abc").is_err());
}

#[test]
fn tiers_by_name() {
    assert_eq!(Tier::from_str("solo"), Tier::Solo);
    assert_eq!(Tier::from_str("startup"), Tier::Startup);
    assert_eq!(Tier::from_str("Solo"), Tier::Unknown);
    assert_eq!(Tier::from_str(""), Tier::Unknown);
    assert_eq!(Tier::from_str("solo "), Tier::Unknown);
    assert_eq!(Tier::Solo.as_str(), "solo");
    assert_eq!(Tier::Startup.as_str(), "startup");
    assert_eq!(Tier::Unknown.as_str(), "unknown");
}

#[test]
fn license_with_fewer_than_four_parts_is_a_format_fault() {
    assert_eq!(verify_license("bad.license.signature", "abc"), Err(LicenseError::Format));
    assert_eq!(verify_license("", "abc"), Err(LicenseError::Format));
    assert_eq!(verify_license("a.b", "abc"), Err(LicenseError::Format));
}

#[test]
fn license_with_a_wrong_signature() {
    let lic = make_license("solo", "abc");
    assert_eq!(verify_license(&lic, "abd"), Err(LicenseError::Signature));
    assert_eq!(verify_license("a.b.c.d", "abc"), Err(LicenseError::Signature));
}

#[test]
fn license_with_an_expiry_that_is_no_date() {
    let lic = sign("id.solo.tomorrow", "abc");
    assert_eq!(verify_license(&lic, "abc"), Err(LicenseError::Format));
}

#[test]
fn license_expires_at_its_moment() {
    let lic = sign("id.startup.2024-01-02T03:04:05.5Z", "abc");
    // 2024-01-02T03:04:05Z
    let secs = 1704164645;
    let at = |secs: i64, nanos: u32| {
        verify_license_at(lic.as_bytes(), b"abc", Moment { secs, nanos })
    };
    assert_eq!(at(secs, 0), Ok(Tier::Startup));
    assert_eq!(at(secs, 500_000_000), Ok(Tier::Startup));
    assert_eq!(at(secs, 500_000_001), Err(LicenseError::Expired));
    assert_eq!(at(secs + 1, 0), Err(LicenseError::Expired));
    assert_eq!(at(secs - 1, 999_999_999), Ok(Tier::Startup));
    assert_eq!(verify_license(&lic, "abc"), Err(LicenseError::Expired));
}

#[test]
fn license_expiry_may_hold_dots_and_an_offset() {
    let lic = sign("id.pro.2024-01-02T05:04:05.250+02:00", "s3cret");
    let at = verify_license_at(lic.as_bytes(), b"s3cret", Moment { secs: 1704164645, nanos: 250_000_000 });
    assert_eq!(at, Ok(Tier::Unknown));
    let after = verify_license_at(lic.as_bytes(), b"s3cret", Moment { secs: 1704164645, nanos: 250_000_001 });
    assert_eq!(after, Err(LicenseError::Expired));
}

#[test]
fn license_signature_is_the_base64_of_the_hmac() {
    // HMAC-SHA256 with key "key" over "The quick brown fox jumps over the lazy dog"
    // is f7bc83f4...2d1a3cd8; here the signed part is a key of four parts
    let lic = sign("a.solo.2999-01-01T00:00:00Z", "key");
    let sig = lic.rsplit('.').next().unwrap();
    assert_eq!(sig.len(), 43);
    assert!(!sig.contains('=') && !sig.contains('+') && !sig.contains('/'));
    assert_eq!(verify_license(&lic, "key"), Ok(Tier::Solo));
    assert_eq!(verify_license(&lic, ""), Err(LicenseError::Signature));
}

#[test]
fn license_error_messages() {
    assert_eq!(LicenseError::Format.message(), "license string format is invalid");
    assert_eq!(LicenseError::Signature.message(), "license signature mismatch");
    assert_eq!(LicenseError::Expired.message(), "license key expired");
}

#[test]
fn license_parts_are_counted_by_their_dots() {
    assert!(!has_fields(""));
    assert!(!has_fields("a.b.c"));
    assert!(has_fields("a.b.c.d"));
    assert!(has_fields("..."));
    assert!(has_fields("a.b.c.d.e"));
}

#[test]
fn secret_and_key_are_set_once() {
    let mut settings = LicenseSettings::new();
    assert!(settings.set_license_secret("abc".to_string()));
    assert!(!settings.set_license_secret("xyz".to_string()));
    assert!(settings.set_license_key("k1".to_string()));
    assert!(!settings.set_license_key("k2".to_string()));
    assert_eq!(settings.get_secret(Some("env".to_string()), None), Ok("abc".to_string()));
    assert_eq!(settings.get_license(None, Some("file".to_string())), Ok("k1".to_string()));
}

#[test]
fn secret_and_key_come_from_the_first_source_that_has_one() {
    let settings = LicenseSettings::new();
    let s = |t: &str| Some(t.to_string());
    assert_eq!(settings.get_secret(s("env"), s("built")), Ok("env".to_string()));
    assert_eq!(settings.get_secret(None, s("built")), Ok("built".to_string()));
    assert_eq!(settings.get_secret(None, None), Err(LicenseError::MissingSecret));
    assert_eq!(settings.get_license(s("env"), s("file")), Ok("env".to_string()));
    assert_eq!(settings.get_license(None, s("file")), Ok("file".to_string()));
    assert_eq!(settings.get_license(None, None), Err(LicenseError::MissingKey));
}

#[test]
fn license_of_the_process_is_checked_in_order() {
    let s = |t: &str| Some(t.to_string());
    let lic = make_license("startup", "abc");
    let mut settings = LicenseSettings::new();
    assert_eq!(
        settings.ensure_license_valid(None, None, s("abc"), None),
        Err(LicenseError::MissingKey)
    );
    assert_eq!(
        settings.ensure_license_valid(s("a.b.c"), None, None, None),
        Err(LicenseError::Format)
    );
    assert_eq!(
        settings.ensure_license_valid(s(&lic), None, None, None),
        Err(LicenseError::MissingSecret)
    );
    assert_eq!(settings.ensure_license_valid(None, s(&lic), None, s("abc")), Ok(Tier::Startup));
    assert_eq!(
        settings.ensure_license_valid(s(&lic), None, s("wrong"), s("abc")),
        Err(LicenseError::Signature)
    );
    assert!(settings.set_license_secret("abc".to_string()));
    assert!(settings.set_license_key(lic.clone()));
    assert_eq!(
        settings.ensure_license_valid(s("a.b.c"), None, s("wrong"), None),
        Ok(Tier::Startup)
    );
}
