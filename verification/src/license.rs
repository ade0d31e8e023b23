//! License keys: a key names a tier and an expiry and is signed with a
//! shared secret. Its form is
//! `<id>.<tier>.<expiry in RFC 3339>.<signature>`, where the signature is the
//! URL-safe base64 text, without padding, of the HMAC-SHA256 of all that
//! stands before the last dot.

use base64::engine::general_purpose::URL_SAFE_NO_PAD;
use base64::Engine;
use hmac::{Hmac, Mac};
use sha2::Sha256;
use vstd::prelude::*;
use vstd::string::StringSliceAdditionalSpecFns;

verus! {

/// The tier that a license grants.
#[derive(Debug, Clone, Copy, PartialEq, Eq, Structural)]
pub enum Tier {
    Solo,
    Startup,
    Unknown,
}

/// Why a license was not accepted.
#[derive(Debug, Clone, Copy, PartialEq, Eq, Structural)]
pub enum LicenseError {
    /// The key has fewer than four parts, or its expiry is no date.
    Format,
    /// The signature is not that of the signed part.
    Signature,
    /// No secret is configured, or it cannot be used as a key.
    MissingSecret,
    /// No license key is configured.
    MissingKey,
    /// The expiry has passed.
    Expired,
}

/// A moment: seconds since the epoch, and nanoseconds within the second.
pub struct Moment {
    pub secs: i64,
    pub nanos: u32,
}

/// The byte that parts a key.
pub const DOT: u8 = 0x2E;

/// The bytes of `solo`.
pub open spec fn solo_name() -> Seq<u8> {
    seq![0x73u8, 0x6Fu8, 0x6Cu8, 0x6Fu8]
}

/// The bytes of `startup`.
pub open spec fn startup_name() -> Seq<u8> {
    seq![0x73u8, 0x74u8, 0x61u8, 0x72u8, 0x74u8, 0x75u8, 0x70u8]
}

/// The tier that a name stands for.
pub open spec fn tier_of(name: Seq<u8>) -> Tier {
    if name == solo_name() {
        Tier::Solo
    } else if name == startup_name() {
        Tier::Startup
    } else {
        Tier::Unknown
    }
}

/// The HMAC-SHA256 of `data` under `key`, if the key can be used.
pub uninterp spec fn hmac_sha256_tag(key: Seq<u8>, data: Seq<u8>) -> Option<Seq<u8>>;

/// The URL-safe base64 text of `bytes`, without padding.
pub uninterp spec fn base64url_text(bytes: Seq<u8>) -> Seq<u8>;

/// The moment that an RFC 3339 text names, if it is one.
pub uninterp spec fn rfc3339_instant(text: Seq<u8>) -> Option<(i64, u32)>;

/// The index of the first dot of `s` from `from` on; the length of `s` if
/// there is none.
pub open spec fn first_dot(s: Seq<u8>, from: int) -> int
    decreases s.len() - from,
{
    if from >= s.len() || from < 0 {
        s.len() as int
    } else if s[from] == DOT {
        from
    } else {
        first_dot(s, from + 1)
    }
}

/// The index of the last dot of `s` before `upto`; -1 if there is none.
pub open spec fn last_dot(s: Seq<u8>, upto: int) -> int
    decreases upto,
{
    if upto <= 0 || upto > s.len() {
        -1
    } else if s[upto - 1] == DOT {
        upto - 1
    } else {
        last_dot(s, upto - 1)
    }
}

/// The parts of a key that the check reads.
pub struct LicenseFields {
    /// Between the first dot and the second.
    pub tier: Seq<u8>,
    /// Between the second dot and the last.
    pub expires: Seq<u8>,
    /// All before the last dot.
    pub signed: Seq<u8>,
    /// All after the last dot.
    pub signature: Seq<u8>,
}

/// The parts of `key`, if dots part it into four or more.
pub open spec fn license_fields(key: Seq<u8>) -> Option<LicenseFields> {
    let d1 = first_dot(key, 0);
    let d2 = first_dot(key, d1 + 1);
    let dl = last_dot(key, key.len() as int);
    if d1 < key.len() && d2 < key.len() && d2 < dl {
        Some(
            LicenseFields {
                tier: key.subrange(d1 + 1, d2),
                expires: key.subrange(d2 + 1, dl),
                signed: key.take(dl),
                signature: key.skip(dl + 1),
            },
        )
    } else {
        None
    }
}

/// Whether the moment `a` is later than the moment `b`.
pub open spec fn later(a: (i64, u32), b: (i64, u32)) -> bool {
    a.0 > b.0 || (a.0 == b.0 && a.1 > b.1)
}

/// What the check makes of `key` under `secret` at the moment `now`: the
/// tier, or the first of these faults: a key of fewer than four parts
/// (`Format`), a secret that is no key (`MissingSecret`), a wrong signature
/// (`Signature`), an expiry that is no date (`Format`), an expiry before
/// `now` (`Expired`).
pub open spec fn license_verdict(key: Seq<u8>, secret: Seq<u8>, now: (i64, u32)) -> Result<
    Tier,
    LicenseError,
> {
    match license_fields(key) {
        None => Err(LicenseError::Format),
        Some(fields) => match hmac_sha256_tag(secret, fields.signed) {
            None => Err(LicenseError::MissingSecret),
            Some(tag) => if base64url_text(tag) != fields.signature {
                Err(LicenseError::Signature)
            } else {
                match rfc3339_instant(fields.expires) {
                    None => Err(LicenseError::Format),
                    Some(expiry) => if later(now, expiry) {
                        Err(LicenseError::Expired)
                    } else {
                        Ok(tier_of(fields.tier))
                    },
                }
            },
        },
    }
}

/// The number of bytes of an HMAC-SHA256 tag.
pub const TAG_LEN: usize = 32;

/// Calls `Hmac::<Sha256>::new_from_slice`, `update` and `finalize` of the
/// hmac crate and copies the tag out. The contract gives the result a name:
/// it depends on the key and the data alone. It claims that a tag has the
/// 32 bytes of a SHA-256 output, and nothing of whether a key is accepted.
#[verifier::external_body]
fn hmac_sha256(key: &[u8], data: &[u8]) -> (r: Option<Vec<u8>>)
    ensures
        match r {
            Some(tag) => hmac_sha256_tag(key@, data@) == Some(tag@) && tag@.len() == TAG_LEN,
            None => hmac_sha256_tag(key@, data@).is_none(),
        },
{
    let mut mac = match Hmac::<Sha256>::new_from_slice(key) {
        Ok(mac) => mac,
        Err(_) => return None,
    };
    mac.update(data);
    Some(mac.finalize().into_bytes().to_vec())
}

/// Calls `encode` of base64's `URL_SAFE_NO_PAD` engine and hands back the
/// bytes of the text. The contract gives the result a name: it depends on
/// the bytes alone. It leaves out inputs so long that the length of the text
/// could not be counted.
#[verifier::external_body]
fn base64url(bytes: &[u8]) -> (text: Vec<u8>)
    requires
        bytes@.len() <= 0x2000_0000,
    ensures
        text@ == base64url_text(bytes@),
{
    URL_SAFE_NO_PAD.encode(bytes).into_bytes()
}

/// Calls chrono's `DateTime::parse_from_rfc3339` on `text` and hands back
/// the seconds and nanoseconds of the moment. The contract gives the result
/// a name: it depends on the text alone.
#[verifier::external_body]
fn parse_rfc3339(text: &[u8]) -> (r: Option<(i64, u32)>)
    ensures
        r == rfc3339_instant(text@),
{
    let text = std::str::from_utf8(text).ok()?;
    let moment = chrono::DateTime::parse_from_rfc3339(text).ok()?;
    Some((moment.timestamp(), moment.timestamp_subsec_nanos()))
}

/// Calls chrono's `Utc::now`. Nothing is claimed of the moment that comes
/// back.
#[verifier::external_body]
fn current_moment() -> (now: (i64, u32)) {
    let now = chrono::Utc::now();
    (now.timestamp(), now.timestamp_subsec_nanos())
}

/// Whether two byte strings are the same.
fn same_bytes(a: &[u8], b: &[u8]) -> (same: bool)
    ensures
        same == (a@ == b@),
{
    if a.len() != b.len() {
        return false;
    }
    let mut i: usize = 0;
    while i < a.len()
        invariant
            i <= a@.len(),
            a@.len() == b@.len(),
            forall|k: int| 0 <= k < i ==> a@[k] == b@[k],
        decreases a@.len() - i,
    {
        if a[i] != b[i] {
            return false;
        }
        i = i + 1;
    }
    proof {
        assert(a@ =~= b@);
    }
    true
}

fn first_dot_of(s: &[u8], from: usize) -> (at: usize)
    requires
        from <= s@.len(),
    ensures
        at == first_dot(s@, from as int),
        from <= at <= s@.len(),
{
    let mut i: usize = from;
    while i < s.len() && s[i] != DOT
        invariant
            from <= i <= s@.len(),
            first_dot(s@, from as int) == first_dot(s@, i as int),
        decreases s@.len() - i,
    {
        i = i + 1;
    }
    i
}

fn last_dot_of(s: &[u8]) -> (r: Option<usize>)
    ensures
        match r {
            Some(at) => at == last_dot(s@, s@.len() as int) && at < s@.len(),
            None => last_dot(s@, s@.len() as int) == -1,
        },
{
    let mut i: usize = s.len();
    while i > 0 && s[i - 1] != DOT
        invariant
            i <= s@.len(),
            last_dot(s@, s@.len() as int) == last_dot(s@, i as int),
        decreases i,
    {
        i = i - 1;
    }
    if i == 0 {
        None
    } else {
        Some(i - 1)
    }
}

impl Tier {
    /// The tier that the name `s` stands for: `solo`, `startup`, or, for
    /// any other name, `Unknown`.
    pub fn from_str(s: &str) -> (tier: Tier)
        ensures
            tier == tier_of(s.spec_bytes()),
    {
        Tier::from_name(s.as_bytes())
    }

    /// The tier that the bytes of a name stand for.
    pub fn from_name(name: &[u8]) -> (tier: Tier)
        ensures
            tier == tier_of(name@),
    {
        let solo: [u8; 4] = [0x73, 0x6F, 0x6C, 0x6F];
        let startup: [u8; 7] = [0x73, 0x74, 0x61, 0x72, 0x74, 0x75, 0x70];
        proof {
            assert(solo@ =~= solo_name());
            assert(startup@ =~= startup_name());
        }
        if same_bytes(name, solo.as_slice()) {
            Tier::Solo
        } else if same_bytes(name, startup.as_slice()) {
            Tier::Startup
        } else {
            Tier::Unknown
        }
    }

    /// The name of the tier.
    pub fn as_str(&self) -> (s: &'static str)
        ensures
            s@ == match *self {
                Tier::Solo => "solo"@,
                Tier::Startup => "startup"@,
                Tier::Unknown => "unknown"@,
            },
    {
        match self {
            Tier::Solo => "solo",
            Tier::Startup => "startup",
            Tier::Unknown => "unknown",
        }
    }
}

impl LicenseError {
    /// A description of the fault.
    pub fn message(&self) -> (s: &'static str)
        ensures
            s@ == match *self {
                LicenseError::Format => "license string format is invalid"@,
                LicenseError::Signature => "license signature mismatch"@,
                LicenseError::MissingSecret => "license secret not configured"@,
                LicenseError::MissingKey => "license key not provided"@,
                LicenseError::Expired => "license key expired"@,
            },
    {
        match self {
            LicenseError::Format => "license string format is invalid",
            LicenseError::Signature => "license signature mismatch",
            LicenseError::MissingSecret => "license secret not configured",
            LicenseError::MissingKey => "license key not provided",
            LicenseError::Expired => "license key expired",
        }
    }
}

/// Whether dots part `key` into four parts or more.
pub fn has_fields(key: &str) -> (yes: bool)
    ensures
        yes == license_fields(key.spec_bytes()).is_some(),
{
    let key = key.as_bytes();
    let d1 = first_dot_of(key, 0);
    if d1 >= key.len() {
        return false;
    }
    let d2 = first_dot_of(key, d1 + 1);
    if d2 >= key.len() {
        return false;
    }
    match last_dot_of(key) {
        Some(dl) => d2 < dl,
        None => false,
    }
}

/// Checks the license `key` under `secret` at the moment `now`.
pub fn verify_license_at(key: &[u8], secret: &[u8], now: Moment) -> (r: Result<Tier, LicenseError>)
    ensures
        r == license_verdict(key@, secret@, (now.secs, now.nanos)),
{
    let d1 = first_dot_of(key, 0);
    if d1 >= key.len() {
        return Err(LicenseError::Format);
    }
    let d2 = first_dot_of(key, d1 + 1);
    if d2 >= key.len() {
        return Err(LicenseError::Format);
    }
    let dl = match last_dot_of(key) {
        Some(at) => at,
        None => {
            return Err(LicenseError::Format);
        },
    };
    if dl <= d2 {
        return Err(LicenseError::Format);
    }
    let tier = vstd::slice::slice_subrange(key, d1 + 1, d2);
    let expires = vstd::slice::slice_subrange(key, d2 + 1, dl);
    let signed = vstd::slice::slice_subrange(key, 0, dl);
    let signature = vstd::slice::slice_subrange(key, dl + 1, key.len());
    proof {
        assert(signed@ =~= key@.take(dl as int));
        assert(signature@ =~= key@.skip(dl + 1));
    }
    let tag = match hmac_sha256(secret, signed) {
        Some(tag) => tag,
        None => {
            return Err(LicenseError::MissingSecret);
        },
    };
    let expected = base64url(tag.as_slice());
    if !same_bytes(expected.as_slice(), signature) {
        return Err(LicenseError::Signature);
    }
    let expiry = match parse_rfc3339(expires) {
        Some(moment) => moment,
        None => {
            return Err(LicenseError::Format);
        },
    };
    if now.secs > expiry.0 || (now.secs == expiry.0 && now.nanos > expiry.1) {
        return Err(LicenseError::Expired);
    }
    Ok(Tier::from_name(tier))
}

/// Checks the license `key` under `secret` at the present moment: the
/// result is the verdict at some moment, the one that the clock gave.
pub fn verify_license(key: &str, secret: &str) -> (r: Result<Tier, LicenseError>)
    ensures
        exists|now: (i64, u32)| r == license_verdict(key.spec_bytes(), secret.spec_bytes(), now),
{
    let now = current_moment();
    let r = verify_license_at(
        key.as_bytes(),
        secret.as_bytes(),
        Moment { secs: now.0, nanos: now.1 },
    );
    assert(r == license_verdict(key.spec_bytes(), secret.spec_bytes(), now));
    r
}

/// The text of the first source that has one.
pub open spec fn first_text(sources: Seq<Option<Seq<char>>>) -> Option<Seq<char>>
    decreases sources.len(),
{
    if sources.len() == 0 {
        None
    } else if sources[0].is_some() {
        sources[0]
    } else {
        first_text(sources.skip(1))
    }
}

/// The text that the string holds, if there is a string.
pub open spec fn text_of(source: Option<String>) -> Option<Seq<char>> {
    match source {
        Some(s) => Some(s@),
        None => None,
    }
}

/// Whether `r` is what the check of a process makes of the key and the
/// secret that it found. Without a key it is `MissingKey`; a key of fewer
/// than four parts is `Format`; without a secret it is `MissingSecret`; else
/// it is the verdict on the key under the secret at some moment, the one
/// that the clock gave.
pub open spec fn is_process_verdict(
    key: Option<Seq<char>>,
    secret: Option<Seq<char>>,
    r: Result<Tier, LicenseError>,
) -> bool {
    match key {
        None => r == Err::<Tier, LicenseError>(LicenseError::MissingKey),
        Some(key) => if license_fields(vstd::utf8::encode_utf8(key)).is_none() {
            r == Err::<Tier, LicenseError>(LicenseError::Format)
        } else {
            match secret {
                None => r == Err::<Tier, LicenseError>(LicenseError::MissingSecret),
                Some(secret) => exists|now: (i64, u32)|
                    r == license_verdict(
                        vstd::utf8::encode_utf8(key),
                        vstd::utf8::encode_utf8(secret),
                        now,
                    ),
            }
        },
    }
}

/// What is known of the license of this process: the secret and the key that
/// were set at run time. Each can be set once.
pub struct LicenseSettings {
    secret: Option<String>,
    key: Option<String>,
}

impl LicenseSettings {
    /// The secret that was set, if one was.
    pub closed spec fn secret(&self) -> Option<Seq<char>> {
        text_of(self.secret)
    }

    /// The key that was set, if one was.
    pub closed spec fn key(&self) -> Option<Seq<char>> {
        text_of(self.key)
    }

    /// Settings with nothing set.
    pub fn new() -> (settings: LicenseSettings)
        ensures
            settings.secret().is_none(),
            settings.key().is_none(),
    {
        LicenseSettings { secret: None, key: None }
    }

    /// Sets the secret, unless one was set before; reports whether it was
    /// set.
    pub fn set_license_secret(&mut self, secret: String) -> (set: bool)
        ensures
            set == old(self).secret().is_none(),
            final(self).secret() == if set {
                Some(secret@)
            } else {
                old(self).secret()
            },
            final(self).key() == old(self).key(),
    {
        if self.secret.is_none() {
            self.secret = Some(secret);
            true
        } else {
            false
        }
    }

    /// Sets the key, unless one was set before; reports whether it was set.
    pub fn set_license_key(&mut self, key: String) -> (set: bool)
        ensures
            set == old(self).key().is_none(),
            final(self).key() == if set {
                Some(key@)
            } else {
                old(self).key()
            },
            final(self).secret() == old(self).secret(),
    {
        if self.key.is_none() {
            self.key = Some(key);
            true
        } else {
            false
        }
    }

    /// The secret: the one that was set, else the one of the environment,
    /// else the one that was built in.
    pub fn get_secret(&self, env: Option<String>, built_in: Option<String>) -> (r: Result<
        String,
        LicenseError,
    >)
        ensures
            match r {
                Ok(secret) => first_text(seq![self.secret(), text_of(env), text_of(built_in)])
                    == Some(secret@),
                Err(e) => e == LicenseError::MissingSecret && first_text(
                    seq![self.secret(), text_of(env), text_of(built_in)],
                ).is_none(),
            },
    {
        let ghost sources = seq![self.secret(), text_of(env), text_of(built_in)];
        proof {
            reveal_with_fuel(first_text, 4);
            assert(sources.skip(1) =~= seq![text_of(env), text_of(built_in)]);
            assert(sources.skip(1).skip(1) =~= seq![text_of(built_in)]);
            assert(sources.skip(1).skip(1).skip(1) =~= Seq::<Option<Seq<char>>>::empty());
        }
        match &self.secret {
            Some(s) => Ok(s.clone()),
            None => match env {
                Some(s) => Ok(s),
                None => match built_in {
                    Some(s) => Ok(s),
                    None => Err(LicenseError::MissingSecret),
                },
            },
        }
    }

    /// The key: the one that was set, else the one of the environment, else
    /// the one of the license file.
    pub fn get_license(&self, env: Option<String>, file: Option<String>) -> (r: Result<
        String,
        LicenseError,
    >)
        ensures
            match r {
                Ok(key) => first_text(seq![self.key(), text_of(env), text_of(file)]) == Some(key@),
                Err(e) => e == LicenseError::MissingKey && first_text(
                    seq![self.key(), text_of(env), text_of(file)],
                ).is_none(),
            },
    {
        let ghost sources = seq![self.key(), text_of(env), text_of(file)];
        proof {
            reveal_with_fuel(first_text, 4);
            assert(sources.skip(1) =~= seq![text_of(env), text_of(file)]);
            assert(sources.skip(1).skip(1) =~= seq![text_of(file)]);
            assert(sources.skip(1).skip(1).skip(1) =~= Seq::<Option<Seq<char>>>::empty());
        }
        match &self.key {
            Some(s) => Ok(s.clone()),
            None => match env {
                Some(s) => Ok(s),
                None => match file {
                    Some(s) => Ok(s),
                    None => Err(LicenseError::MissingKey),
                },
            },
        }
    }

    /// Checks the license of this process at the present moment, with the
    /// key and the secret taken from the first source that has one.
    pub fn ensure_license_valid(
        &self,
        env_key: Option<String>,
        file_key: Option<String>,
        env_secret: Option<String>,
        built_in_secret: Option<String>,
    ) -> (r: Result<Tier, LicenseError>)
        ensures
            is_process_verdict(
                first_text(seq![self.key(), text_of(env_key), text_of(file_key)]),
                first_text(seq![self.secret(), text_of(env_secret), text_of(built_in_secret)]),
                r,
            ),
    {
        let key = self.get_license(env_key, file_key)?;
        let key_text: &str = key.as_str();
        if !has_fields(key_text) {
            return Err(LicenseError::Format);
        }
        let secret = self.get_secret(env_secret, built_in_secret)?;
        let secret_text: &str = secret.as_str();
        let r = verify_license(key_text, secret_text);
        proof {
            let now = choose|now: (i64, u32)|
                r == license_verdict(key_text.spec_bytes(), secret_text.spec_bytes(), now);
            assert(r == license_verdict(
                vstd::utf8::encode_utf8(key@),
                vstd::utf8::encode_utf8(secret@),
                now,
            ));
            assert(is_process_verdict(Some(key@), Some(secret@), r));
        }
        r
    }
}

} // verus!
