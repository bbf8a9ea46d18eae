//! Who a connection is, and what it may subscribe to.
//!
//! The server does not know what a token is. It hands the string from the client's `auth`
//! message to a [`TokenValidator`] and gets back [`Claims`] or a refusal. It then asks an
//! [`Authorizer`] whether those claims may subscribe to each channel. Both are traits so
//! the crate carries no opinion about tiers, plans, or identity providers.
//!
//! [`HmacJwt`] validates HS256 tokens.

use vstd::prelude::*;

use jsonwebtoken::{Algorithm, DecodingKey, Validation};
use vstd::slice::slice_to_vec;

use crate::protocol::str_texts;
use serde_json::Value;

verus! {

#[verifier::external_type_specification]
#[verifier::external_body]
pub struct ExValidation(Validation);

/// The value of one claim: a JSON string's text, or any other JSON value as JSON text.
#[derive(Debug, Clone, PartialEq, Eq)]
pub enum ClaimValue {
    /// A JSON string, unescaped.
    Str(String),
    /// Any other JSON value, as its JSON text.
    Json(String),
}

/// What a validated token says about the connection.
#[derive(Debug, Clone, PartialEq, Eq)]
pub struct Claims {
    /// The principal, typically the token's `sub`.
    pub subject: String,
    /// Everything else the token carried, by name, for an [`Authorizer`] to inspect.
    pub attributes: Vec<(String, ClaimValue)>,
}

/// The names of `entries`, in order.
pub open spec fn entry_names(entries: Seq<(String, ClaimValue)>) -> Seq<Seq<char>> {
    entries.map_values(|e: (String, ClaimValue)| e.0@)
}

/// The string value of the first entry named `key`, if that entry holds a string.
pub open spec fn string_attribute(entries: Seq<(String, ClaimValue)>, key: Seq<char>) -> Option<
    Seq<char>,
>
    decreases entries.len(),
{
    if entries.len() == 0 {
        None
    } else if entries[0].0@ == key {
        match entries[0].1 {
            ClaimValue::Str(s) => Some(s@),
            ClaimValue::Json(_) => None,
        }
    } else {
        string_attribute(entries.drop_first(), key)
    }
}

impl Claims {
    /// Claims with only a subject.
    pub fn new(subject: &str) -> (claims: Claims)
        ensures
            claims.subject@ == subject@,
            claims.attributes@.len() == 0,
    {
        Claims { subject: String::from_str(subject), attributes: Vec::new() }
    }

    /// A string attribute, if present and a string.
    pub fn get_str(&self, key: &str) -> (value: Option<&str>)
        ensures
            match value {
                Some(v) => string_attribute(self.attributes@, key@) == Some(v@),
                None => string_attribute(self.attributes@, key@) is None,
            },
    {
        let n = self.attributes.len();
        let mut i: usize = 0;
        assert(self.attributes@.subrange(0, n as int) =~= self.attributes@);
        while i < n
            invariant
                n == self.attributes@.len(),
                i <= n,
                string_attribute(self.attributes@, key@) == string_attribute(
                    self.attributes@.subrange(i as int, n as int),
                    key@,
                ),
            decreases n - i,
        {
            let ghost rest = self.attributes@.subrange(i as int, n as int);
            assert(rest.drop_first() =~= self.attributes@.subrange(i + 1, n as int));
            let (name, value) = &self.attributes[i];
            if equal_text(name.as_str(), key) {
                return match value {
                    ClaimValue::Str(s) => Some(s.as_str()),
                    ClaimValue::Json(_) => None,
                };
            }
            i = i + 1;
        }
        assert(self.attributes@.subrange(n as int, n as int).len() == 0);
        None
    }
}

/// Whether two strings hold the same text.
fn equal_text(a: &str, b: &str) -> (r: bool)
    ensures
        r == (a@ == b@),
{
    let x = String::from_str(a);
    let y = String::from_str(b);
    x == y
}

/// Turns the client's token into [`Claims`], or refuses it.
///
/// The `Err` string is sent to the client verbatim in an `error` message before the
/// connection is closed, so it should say *that* the token was refused and not *why* in
/// any detail an attacker would find useful.
pub trait TokenValidator: Send + Sync + 'static {
    /// Validate `token`.
    fn validate(&self, token: &str) -> Result<Claims, String>;
}

/// Decides, per channel, whether a connection may subscribe.
pub trait Authorizer: Send + Sync + 'static {
    /// Whether `claims` may subscribe to `channel`.
    fn may_subscribe(&self, claims: &Claims, channel: &str) -> bool;
}

/// Accepts every subscription. The default.
#[derive(Debug, Clone, Copy, Default)]
pub struct AllowAll;

impl Authorizer for AllowAll {
    fn may_subscribe(&self, claims: &Claims, channel: &str) -> (allowed: bool)
        ensures
            allowed,
    {
        true
    }
}

/// Calls the application's closure `f` on `claims` and `channel`. What it answers is
/// an answer `f` gives on those arguments, as a call of `f` always is; nothing more is
/// stated of it.
#[verifier::external_body]
fn ask_closure<F: Fn(&Claims, &str) -> bool>(f: &F, claims: &Claims, channel: &str) -> (allowed:
    bool)
    ensures
        f.ensures((claims, channel), allowed),
{
    f(claims, channel)
}

impl<F> Authorizer for F where F: Fn(&Claims, &str) -> bool + Send + Sync + 'static {
    /// The closure's own answer for `claims` and `channel`.
    fn may_subscribe(&self, claims: &Claims, channel: &str) -> (allowed: bool)
        ensures
            self.ensures((claims, channel), allowed),
    {
        ask_closure(self, claims, channel)
    }
}

/// Accepts exactly one fixed token and maps it to a subject. For tests and demos.
#[derive(Debug, Clone)]
pub struct StaticToken {
    token: String,
    subject: String,
}

impl View for StaticToken {
    /// The accepted token and the subject it maps to.
    type V = (Seq<char>, Seq<char>);

    closed spec fn view(&self) -> (Seq<char>, Seq<char>) {
        (self.token@, self.subject@)
    }
}

impl StaticToken {
    /// Accept `token` as `subject`.
    pub fn new(token: &str, subject: &str) -> (v: StaticToken)
        ensures
            v@ == (token@, subject@),
    {
        StaticToken { token: String::from_str(token), subject: String::from_str(subject) }
    }
}

impl TokenValidator for StaticToken {
    fn validate(&self, token: &str) -> (r: Result<Claims, String>)
        ensures
            match r {
                Ok(c) => token@ == self@.0 && c.subject@ == self@.1 && c.attributes@.len() == 0,
                Err(e) => token@ != self@.0 && e@ == "invalid token"@,
            },
    {
        if equal_text(token, self.token.as_str()) {
            Ok(Claims { subject: self.subject.clone(), attributes: Vec::new() })
        } else {
            Err(String::from_str("invalid token"))
        }
    }
}

/// What a `Validation` checks, as far as this crate sets it: whether it verifies
/// signatures (its `validate_signature` flag, which only
/// `insecure_disable_signature_validation` clears), whether it accepts HS256 and
/// nothing else (its `algorithms` are `[HS256]`), and the claims it requires (its
/// `required_spec_claims`).
pub uninterp spec fn validation_checks(v: Validation) -> (bool, bool, Set<Seq<char>>);

/// `Validation::clone`: the derived clone, with the same settings.
pub assume_specification[ <Validation as Clone>::clone ](v: &Validation) -> (r: Validation)
    ensures
        validation_checks(r) == validation_checks(*v),
;

/// `Validation::new(Algorithm::HS256)`: verifies signatures, accepts HS256 only, and
/// requires `exp`, as `new_impl` sets it.
#[verifier::external_body]
fn hs256_validation() -> (v: Validation)
    ensures
        validation_checks(v) == (true, true, set!["exp"@]),
{
    Validation::new(Algorithm::HS256)
}

/// `Validation::set_required_spec_claims`: the registered claims a token must carry
/// become exactly `names`; nothing else changes.
#[verifier::external_body]
fn require_claims(validation: &mut Validation, names: &[&str])
    ensures
        validation_checks(*final(validation)) == (
            validation_checks(*old(validation)).0,
            validation_checks(*old(validation)).1,
            str_texts(names@).to_set(),
        ),
{
    validation.set_required_spec_claims(names)
}

/// One claim as plain values: its name, whether its value is a JSON string, and the
/// string's text or else the value's JSON text.
pub open spec fn entry_view(e: (String, ClaimValue)) -> (Seq<char>, bool, Seq<char>) {
    match e.1 {
        ClaimValue::Str(s) => (e.0@, true, s@),
        ClaimValue::Json(j) => (e.0@, false, j@),
    }
}

/// Each claim as plain values, in order.
pub open spec fn entry_views(entries: Seq<(String, ClaimValue)>) -> Seq<(Seq<char>, bool, Seq<char>)> {
    entries.map_values(|e: (String, ClaimValue)| entry_view(e))
}

/// Whether `token` is a JSON Web Token whose header names HS256 and whose signature is
/// the HMAC-SHA256 of its header and claims under the key `secret`. It depends on the
/// token and the secret alone.
pub uninterp spec fn hs256_signed(token: Seq<char>, secret: Seq<u8>) -> bool;

/// The claims in `token`'s payload, as `jsonwebtoken` decodes them into a JSON object:
/// by name, in the object's order, each as [`entry_view`] writes it. It depends on the
/// token alone.
pub uninterp spec fn jwt_claims(token: Seq<char>) -> Seq<(Seq<char>, bool, Seq<char>)>;

/// `jsonwebtoken::decode` into a JSON object, under the HMAC key
/// `DecodingKey::from_secret(secret)`: checks the signature and then the claims with
/// `validation`, and hands out the claims by name, each value converted: a JSON string
/// to its text, anything else to its JSON text.
///
/// Whether a token passes the claim checks depends on the clock (`exp`), so nothing is
/// stated of which tokens do. Of a token that passes, as the crate's source shows:
/// the claims handed out are the token's, with distinct names (one JSON object); with
/// signatures verified and HS256 the only algorithm, its header names HS256 and its
/// signature checks out under the secret (`verify_signature_body`); and a required
/// `exp` is present, a required `sub` present as a string (`validate`).
#[verifier::external_body]
fn decode_claims(
    token: &str,
    secret: &[u8],
    validation: &Validation,
) -> (claims: Option<Vec<(String, ClaimValue)>>)
    ensures
        claims matches Some(v) ==> {
            &&& entry_views(v@) == jwt_claims(token@)
            &&& entry_names(v@).no_duplicates()
            &&& validation_checks(*validation).0 && validation_checks(*validation).1
                ==> hs256_signed(token@, secret@)
            &&& validation_checks(*validation).2.contains("exp"@) ==> entry_names(v@).contains(
                "exp"@,
            )
            &&& validation_checks(*validation).2.contains("sub"@) ==> exists|i: int|
                0 <= i < v@.len() && v@[i].0@ == "sub"@ && v@[i].1 is Str
        },
{
    let key = DecodingKey::from_secret(secret);
    match jsonwebtoken::decode::<serde_json::Map<String, Value>>(token, &key, validation) {
        Ok(data) => Some(
            data.claims.into_iter().map(|(k, v)| match v {
                Value::String(s) => (k, ClaimValue::Str(s)),
                other => (k, ClaimValue::Json(other.to_string())),
            }).collect(),
        ),
        Err(_) => None,
    }
}

/// Entry `i` is the first one named `sub`.
pub open spec fn first_sub(entries: Seq<(Seq<char>, bool, Seq<char>)>, i: int) -> bool {
    &&& 0 <= i < entries.len()
    &&& entries[i].0 == "sub"@
    &&& forall|j: int| 0 <= j < i ==> #[trigger] entries[j].0 != "sub"@
}

/// Entry `i` holds the string subject of `c`, and `c`'s attributes are the other entries.
pub open spec fn subject_at(entries: Seq<(Seq<char>, bool, Seq<char>)>, i: int, c: Claims) -> bool {
    &&& entries[i].1
    &&& c.subject@ == entries[i].2
    &&& entry_views(c.attributes@) == entries.remove(i)
}

/// `r` is what a validated token's `entries` make: the first `sub` entry, which must
/// hold a string, is the subject, and every other entry is an attribute, in order;
/// without such an entry the token is refused.
pub open spec fn claims_made(
    entries: Seq<(Seq<char>, bool, Seq<char>)>,
    r: Result<Claims, String>,
) -> bool {
    match r {
        Ok(c) => exists|i: int| first_sub(entries, i) && subject_at(entries, i, c),
        Err(e) => e@ == "invalid token"@ && forall|i: int| #[trigger]
            first_sub(entries, i) ==> !entries[i].1,
    }
}

/// The claims a validated token's entries make, as [`claims_made`] says.
pub fn claims_from_entries(entries: Vec<(String, ClaimValue)>) -> (r: Result<Claims, String>)
    ensures
        claims_made(entry_views(entries@), r),
{
    let sub = String::from_str("sub");
    let ghost es = entry_views(entries@);
    let n = entries.len();
    let mut i: usize = 0;
    while i < n
        invariant
            n == entries@.len(),
            es == entry_views(entries@),
            i <= n,
            sub@ == "sub"@,
            forall|j: int| 0 <= j < i ==> #[trigger] es[j].0 != "sub"@,
        ensures
            i <= n,
            forall|j: int| 0 <= j < i ==> #[trigger] es[j].0 != "sub"@,
            i < n ==> es[i as int].0 == "sub"@,
        decreases n - i,
    {
        assert(es[i as int].0 == entries@[i as int].0@);
        if entries[i].0 == sub {
            break;
        }
        i = i + 1;
    }
    if i == n {
        return Err(String::from_str("invalid token"));
    }
    assert(first_sub(es, i as int));
    let ghost before = entries@;
    let mut attributes = entries;
    let (_, value) = attributes.remove(i);
    assert(entry_views(attributes@) =~= es.remove(i as int)) by {
        assert(attributes@ =~= before.remove(i as int));
    }
    match value {
        ClaimValue::Str(subject) => {
            let c = Claims { subject, attributes };
            assert(subject_at(es, i as int, c));
            Ok(c)
        },
        ClaimValue::Json(_) => {
            assert forall|k: int| #[trigger] first_sub(es, k) implies !es[k].1 by {
                if k < i {
                    assert(es[k].0 != "sub"@);
                } else if k > i {
                    assert(es[i as int].0 != "sub"@);
                }
            }
            Err(String::from_str("invalid token"))
        },
    }
}

/// HS256 JSON Web Tokens with a shared secret.
///
/// Requires `exp` and `sub`; the `sub` claim becomes [`Claims::subject`] and every other
/// claim lands in [`Claims::attributes`], so an [`Authorizer`] can read a `tier` or
/// `scope` without the server knowing those words.
pub struct HmacJwt {
    secret: Vec<u8>,
    validation: Validation,
}

impl View for HmacJwt {
    /// The shared secret tokens must be signed with.
    type V = Seq<u8>;

    closed spec fn view(&self) -> Seq<u8> {
        self.secret@
    }
}

impl HmacJwt {
    /// Every validator verifies signatures, accepts HS256 only, and requires `exp` and
    /// `sub`.
    #[verifier::type_invariant]
    closed spec fn inv(self) -> bool {
        validation_checks(self.validation) == (true, true, set!["exp"@, "sub"@])
    }

    /// Validate tokens signed with `secret`.
    pub fn new(secret: &[u8]) -> (v: HmacJwt)
        ensures
            v@ == secret@,
    {
        let mut validation = hs256_validation();
        let names: &[&str] = &["exp", "sub"];
        require_claims(&mut validation, names);
        assert(str_texts(names@).to_set() =~= set!["exp"@, "sub"@]) by {
            assert(str_texts(names@) =~= seq!["exp"@, "sub"@]);
            assert(seq!["exp"@, "sub"@][0] == "exp"@);
            assert(seq!["exp"@, "sub"@][1] == "sub"@);
        }
        HmacJwt { secret: slice_to_vec(secret), validation }
    }
}

impl Clone for HmacJwt {
    fn clone(&self) -> (c: Self)
        ensures
            c@ == self@,
    {
        proof {
            use_type_invariant(self);
        }
        let secret = slice_to_vec(self.secret.as_slice());
        HmacJwt { secret, validation: self.validation.clone() }
    }
}

impl TokenValidator for HmacJwt {
    /// The token's claims, as [`claims_made`] says of the claims in it, once the token's
    /// HS256 signature has checked out under the secret; or a refusal. Whether a token
    /// with a good signature passes depends on the clock.
    fn validate(&self, token: &str) -> (r: Result<Claims, String>)
        ensures
            r matches Err(e) ==> e@ == "invalid token"@,
            r is Ok ==> claims_made(jwt_claims(token@), r),
            r is Ok ==> hs256_signed(token@, self@),
            r is Ok ==> exists|i: int|
                0 <= i < jwt_claims(token@).len() && jwt_claims(token@)[i].0 == "exp"@,
            r matches Ok(c) ==> !entry_names(c.attributes@).contains("sub"@),
    {
        proof {
            use_type_invariant(self);
        }
        match decode_claims(token, self.secret.as_slice(), &self.validation) {
            Some(entries) => {
                let ghost names = entry_names(entries@);
                let ghost es = entry_views(entries@);
                proof {
                    assert forall|j: int| 0 <= j < es.len() implies #[trigger] es[j].0 == names[j] by {
                        let e = entries@[j];
                        match e.1 {
                            ClaimValue::Str(_) => {},
                            ClaimValue::Json(_) => {},
                        }
                    }
                    assert(set!["exp"@, "sub"@].contains("exp"@));
                    assert(names.contains("exp"@));
                    let k = choose|k: int| 0 <= k < names.len() && names[k] == "exp"@;
                    assert(es[k].0 == "exp"@);
                }
                let r = claims_from_entries(entries);
                proof {
                    if r is Ok {
                        let c = r->Ok_0;
                        let i = choose|i: int| first_sub(es, i) && subject_at(es, i, c);
                        if entry_names(c.attributes@).contains("sub"@) {
                            let k = choose|k: int|
                                0 <= k < entry_names(c.attributes@).len() && #[trigger] entry_names(
                                    c.attributes@,
                                )[k] == "sub"@;
                            let k2 = if k < i {
                                k
                            } else {
                                k + 1
                            };
                            let a = c.attributes@[k];
                            match a.1 {
                                ClaimValue::Str(_) => {},
                                ClaimValue::Json(_) => {},
                            }
                            assert(entry_names(c.attributes@)[k] == a.0@);
                            assert(entry_views(c.attributes@)[k] == entry_view(a));
                            assert(entry_views(c.attributes@)[k].0 == "sub"@);
                            assert(entry_views(c.attributes@)[k] == es.remove(i)[k]);
                            assert(0 <= i < es.len());
                            assert(entry_views(c.attributes@).len() == es.len() - 1);
                            assert(0 <= k < es.len() - 1);
                            if k < i {
                                assert(es.remove(i)[k] == es.subrange(0, i)[k]);
                            } else {
                                assert(es.remove(i)[k] == es.subrange(i + 1, es.len() as int)[k - i]);
                            }
                            assert(es.remove(i)[k] == es[k2]);
                            assert(es[k2].0 == "sub"@);
                            assert(names[k2] == names[i]);
                        }
                    }
                }
                r
            },
            None => Err(String::from_str("invalid token")),
        }
    }
}

/// Of a token whose claims have distinct names, as a JSON object's do: a `sub` claim
/// that holds a string, wherever it stands, is the subject, and every other claim is
/// an attribute in order; such a token is never refused for want of a subject.
pub proof fn law_a_string_sub_is_the_subject(
    entries: Seq<(Seq<char>, bool, Seq<char>)>,
    r: Result<Claims, String>,
    i: int,
)
    requires
        claims_made(entries, r),
        forall|a: int, b: int| 0 <= a < b < entries.len() ==> entries[a].0 != entries[b].0,
        0 <= i < entries.len(),
        entries[i].0 == "sub"@,
        entries[i].1,
    ensures
        r is Ok,
        r matches Ok(c) ==> c.subject@ == entries[i].2 && entry_views(c.attributes@)
            == entries.remove(i),
{
    assert(first_sub(entries, i));
    match r {
        Ok(c) => {
            let k = choose|k: int| first_sub(entries, k) && subject_at(entries, k, c);
            if k < i {
                assert(entries[k].0 == "sub"@);
            } else if k > i {
                assert(entries[i].0 != "sub"@);
            }
        },
        Err(_) => {
            assert(!entries[i].1);
        },
    }
}

} // verus!
