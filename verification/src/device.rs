//! Device identities.

use vstd::prelude::*;
use vstd::string::*;

use ed25519_dalek::{SignatureError, VerifyingKey};

use crate::base32;
use crate::base32::{decode_key, decode_text, spell_key};
use crate::order;
use crate::order::{rel_bytes, Key, Rel};
use crate::ordset::Duplicate;

verus! {

/// Whether 32 bytes are the compressed form of an Ed25519 public key.
pub uninterp spec fn is_public_key(bytes: Seq<u8>) -> bool;

/// What Unicode lowercasing makes of a text.
pub uninterp spec fn lowercase(text: Seq<char>) -> Seq<char>;

/// What Unicode uppercasing makes of a text.
pub uninterp spec fn uppercase(text: Seq<char>) -> Seq<char>;

#[verifier::external_type_specification]
#[verifier::external_body]
pub struct ExVerifyingKey(VerifyingKey);

#[verifier::external_type_specification]
#[verifier::external_body]
pub struct ExSignatureError(SignatureError);

/// Calls `ed25519_dalek::VerifyingKey::from_bytes`, which succeeds or fails by
/// the bytes alone.
#[verifier::external_body]
fn parse_public_key(bytes: &[u8; 32]) -> (r: Result<VerifyingKey, SignatureError>)
    ensures
        r is Ok <==> is_public_key(bytes@),
{
    VerifyingKey::from_bytes(bytes)
}

/// Calls `str::to_lowercase`. On ASCII text that lowers the capitals and
/// leaves the rest.
#[verifier::external_body]
fn to_lowercase(text: &str) -> (r: String)
    ensures
        r@ == lowercase(text@),
        text.is_ascii() ==> r@ == text@.map_values(|c: char| base32::lower_byte(c as u8) as char),
{
    text.to_lowercase()
}

/// Calls `str::to_uppercase`. On ASCII text that raises the small letters and
/// leaves the rest.
#[verifier::external_body]
fn to_uppercase(text: &str) -> (r: String)
    ensures
        r@ == uppercase(text@),
        text.is_ascii() ==> r@ == text@.map_values(|c: char| base32::upper_byte(c as u8) as char),
{
    text.to_uppercase()
}

/// Calls `core::str::from_utf8`, which accepts exactly the valid UTF-8.
#[verifier::external_body]
fn utf8_text(bytes: &[u8]) -> (r: Option<&str>)
    ensures
        match r {
            Some(text) => text.spec_bytes() == bytes@,
            None => !vstd::utf8::valid_utf8(bytes@),
        },
{
    std::str::from_utf8(bytes).ok()
}

/// Why a text or a key is no device identity.
#[derive(Clone, Copy, PartialEq, Eq, Structural, Debug)]
pub enum DeviceIdError {
    /// The text does not hold exactly 52 bytes.
    Length,
    /// The text is empty or not lowercase unpadded base32.
    NotLowercase,
    /// The text is not canonical base32.
    NotBase32,
    /// The text does not decode to 32 bytes.
    KeyLength,
    /// The key is no Ed25519 public key.
    InvalidKey,
    /// The text is not the canonical base32 spelling.
    NotCanonical,
}

/// Whether bytes are no canonical spelling of a public key, and `e` says why.
pub open spec fn is_refused(text: Seq<u8>, e: DeviceIdError) -> bool {
    let lowered = forall|i: int|
        0 <= i < text.len() ==> base32::is_spelling_byte(#[trigger] text[i]);
    &&& forall|key: Seq<u8>|
        key.len() == 32 && is_public_key(key) ==> text != #[trigger] base32::spelling(key)
    &&& e == DeviceIdError::Length <==> text.len() != 52
    &&& e == DeviceIdError::NotLowercase <==> text.len() == 52 && !lowered
    &&& e == DeviceIdError::NotBase32 <==> text.len() == 52 && lowered && (forall|b: Seq<u8>|
        base32::upper(text) != #[trigger] base32::base32(b))
    &&& e == DeviceIdError::InvalidKey <==> text.len() == 52 && lowered && (exists|b: Seq<u8>|
        base32::upper(text) == #[trigger] base32::base32(b) && !is_public_key(b))
}

/// The only authority-bearing device identity accepted by canonical facts.
///
/// This is the raw Ed25519 public key together with its canonical lowercase
/// base32 form. Display suffixes, uppercase encodings, padding, and alternate
/// base32 forms are rejected before a value can enter a fact or cell.
/// Identities are ordered by their canonical spelling, which is not the order
/// of the raw key bytes.
#[derive(Clone, Copy, PartialEq, Eq, PartialOrd, Ord, Hash, Debug)]
pub struct DeviceId {
    canonical: [u8; 52],
    bytes: [u8; 32],
}

/// A text that is not empty and that lowercasing leaves as it is.
pub open spec fn is_lowered(text: Seq<char>) -> bool {
    text.len() > 0 && lowercase(text) == text
}

/// A lowered text whose uppercase form spells `bytes` in base32.
pub open spec fn decodes(text: Seq<char>, bytes: Seq<u8>) -> bool {
    let raised = vstd::utf8::encode_utf8(uppercase(text));
    is_lowered(text) && raised.len() <= usize::MAX / 8 && raised == base32::base32(bytes)
}

/// Whether two byte strings are equal.
fn same_bytes(a: &[u8], b: &[u8]) -> (r: bool)
    ensures
        r <==> a@ == b@,
{
    if a.len() != b.len() {
        return false;
    }
    let n: usize = a.len();
    let mut i: usize = 0;
    while i < n
        invariant
            n == a@.len(),
            n == b@.len(),
            i <= n,
            forall|j: int| 0 <= j < i ==> a@[j] == b@[j],
        decreases n - i,
    {
        if a[i] != b[i] {
            assert(a@[i as int] != b@[i as int]);
            return false;
        }
        i += 1;
    }
    assert(a@ =~= b@);
    true
}

/// Two texts with one UTF-8 form are one text.
proof fn lemma_utf8_injective(a: Seq<char>, b: Seq<char>)
    requires
        vstd::utf8::encode_utf8(a) == vstd::utf8::encode_utf8(b),
    ensures
        a == b,
{
    vstd::utf8::encode_utf8_decode_utf8(a);
    vstd::utf8::encode_utf8_decode_utf8(b);
}

/// The characters of an ASCII byte string.
pub open spec fn ascii_text(bytes: Seq<u8>) -> Seq<char> {
    bytes.map_values(|b: u8| b as char)
}

proof fn lemma_ascii_utf8(bytes: Seq<u8>)
    requires
        forall|i: int| 0 <= i < bytes.len() ==> #[trigger] bytes[i] < 128,
    ensures
        vstd::utf8::encode_utf8(ascii_text(bytes)) == bytes,
        vstd::utf8::valid_utf8(bytes),
        vstd::utf8::is_ascii_chars(ascii_text(bytes)),
{
    let text = ascii_text(bytes);
    assert(vstd::utf8::is_ascii_chars(text)) by {
        assert forall|i: int| 0 <= i < text.len() implies '\0' <= #[trigger] text[i] <= '\u{7f}' by {
            assert(bytes[i] < 128);
        }
    }
    vstd::utf8::is_ascii_chars_encode_utf8(text);
    assert(vstd::utf8::encode_utf8(text) =~= bytes);
    vstd::utf8::encode_utf8_valid_utf8(text);
}

/// A text whose UTF-8 form is ASCII.
proof fn lemma_utf8_ascii(text: Seq<char>, bytes: Seq<u8>)
    requires
        vstd::utf8::encode_utf8(text) == bytes,
        forall|i: int| 0 <= i < bytes.len() ==> #[trigger] bytes[i] < 128,
    ensures
        text == ascii_text(bytes),
        vstd::utf8::is_ascii_chars(text),
{
    lemma_ascii_utf8(bytes);
    lemma_utf8_injective(text, ascii_text(bytes));
}

/// A text spelled canonically is ASCII.
proof fn lemma_spelled_text(text: Seq<char>, key: Seq<u8>)
    requires
        vstd::utf8::encode_utf8(text) == base32::spelling(key),
    ensures
        text == ascii_text(base32::spelling(key)),
        vstd::utf8::is_ascii_chars(text),
        key.len() > 0 ==> text.len() > 0,
        text.map_values(|c: char| base32::lower_byte(c as u8) as char) == text,
{
    base32::lemma_spelling(key);
    let bytes = base32::spelling(key);
    assert forall|i: int| 0 <= i < bytes.len() implies #[trigger] bytes[i] < 128 by {
        assert(base32::is_spelling_byte(bytes[i]));
    }
    lemma_utf8_ascii(text, bytes);
    assert(text.map_values(|c: char| base32::lower_byte(c as u8) as char) =~= text) by {
        assert forall|i: int| 0 <= i < text.len() implies base32::lower_byte(text[i] as u8) as char
            == text[i] by {
            assert(base32::is_spelling_byte(bytes[i]));
            assert(text[i] == bytes[i] as char);
        }
    }
}

impl DeviceId {
    #[verifier::type_invariant]
    closed spec fn well_formed(self) -> bool {
        self.canonical@ == base32::spelling(self.bytes@) && is_public_key(self.bytes@)
    }

    /// The raw public key.
    pub closed spec fn key(self) -> Seq<u8> {
        self.bytes@
    }

    /// The canonical spelling, as bytes.
    pub closed spec fn spelled(self) -> Seq<u8> {
        self.canonical@
    }

    /// The identity that a key and a spelling make up.
    pub open spec fn is_identity(self) -> bool {
        self.spelled() == base32::spelling(self.key()) && is_public_key(self.key())
    }

    /// An identity is its key and its spelling.
    pub proof fn lemma_parts(a: DeviceId, b: DeviceId)
        ensures
            a.key().len() == 32,
            a.spelled().len() == 52,
            a.key() == b.key() && a.spelled() == b.spelled() ==> a == b,
            a.is_identity() && b.is_identity() ==> (a == b <==> a.key() == b.key()),
            a.is_identity() && b.is_identity() ==> (a == b <==> a.spelled() == b.spelled()),
    {
        assert(a.bytes@.len() == 32);
        assert(a.canonical@.len() == 52);
        if a.bytes@ == b.bytes@ && a.canonical@ == b.canonical@ {
            assert(a.bytes =~= b.bytes);
            assert(a.canonical =~= b.canonical);
        }
        if a.is_identity() && b.is_identity() && a.spelled() == b.spelled() {
            base32::lemma_spelling_injective(a.bytes@, b.bytes@);
        }
    }

    /// Identities are ordered as their canonical spellings are.
    pub proof fn lemma_order(a: DeviceId, b: DeviceId)
        requires
            a.is_identity(),
            b.is_identity(),
        ensures
            order::before(a, b) <==> order::lex_lt(
                order::ints(a.spelled()),
                order::ints(b.spelled()),
            ),
    {
        let x = order::ints(a.canonical@);
        let y = order::ints(b.canonical@);
        assert(a.canonical@.len() == 52 && b.canonical@.len() == 52);
        let p = order::ints(a.bytes@);
        let q = order::ints(b.bytes@);
        order::lemma_lex_concat(x, y, p, q);
        order::lemma_lex_concat(y, x, q, p);
        order::lemma_lex_total(x, y);
        order::lemma_lex_exclusive(x, y);
        order::lemma_lex_exclusive(x + p, y + q);
        if x == y {
            order::lemma_ints_injective(a.canonical@, b.canonical@);
            Self::lemma_parts(a, b);
            order::lemma_lex_irreflexive(x);
            order::lemma_lex_irreflexive(x + p);
        }
    }

    /// Validate a wire identity. Input length is checked before scanning.
    /// Accepted spellings and key validation match `from_canonical_str`.
    pub fn canonical_key_bytes(value: &str) -> (r: Result<[u8; 32], DeviceIdError>)
        ensures
            match r {
                Ok(key) => value.spec_bytes() == base32::spelling(key@) && is_public_key(key@),
                Err(e) => is_refused(value.spec_bytes(), e),
            },
    {
        let text = value.as_bytes();
        if text.len() != 52 {
            proof {
                assert forall|key: Seq<u8>| key.len() == 32 implies value.spec_bytes()
                    != #[trigger] base32::spelling(key) by {
                    base32::lemma_spelling(key);
                }
            }
            return Err(DeviceIdError::Length);
        }
        let mut upper: [u8; 52] = [0u8;52];
        let mut i: usize = 0;
        while i < 52
            invariant
                i <= 52,
                text@ == value.spec_bytes(),
                text@.len() == 52,
                upper@.len() == 52,
                forall|j: int| 0 <= j < i ==> base32::is_spelling_byte(#[trigger] text@[j]),
                forall|j: int| 0 <= j < i ==> upper@[j] == base32::upper_byte(text@[j]),
            decreases 52 - i,
        {
            let byte: u8 = text[i];
            if !(97 <= byte && byte <= 122 || 50 <= byte && byte <= 55) {
                proof {
                    assert(!base32::is_spelling_byte(text@[i as int]));
                    assert forall|key: Seq<u8>| key.len() == 32 implies value.spec_bytes()
                        != #[trigger] base32::spelling(key) by {
                        base32::lemma_spelling(key);
                        if value.spec_bytes() == base32::spelling(key) {
                            assert(base32::is_spelling_byte(base32::spelling(key)[i as int]));
                        }
                    }
                }
                return Err(DeviceIdError::NotLowercase);
            }
            upper[i] = if 97 <= byte && byte <= 122 {
                byte - 32
            } else {
                byte
            };
            i += 1;
        }
        assert(upper@ =~= base32::upper(text@));
        let mut key: [u8; 32] = [0u8;32];
        let decoded: usize = match decode_key(&upper, &mut key) {
            Ok(n) => n,
            Err(_) => {
                proof {
                    assert forall|key: Seq<u8>| key.len() == 32 implies value.spec_bytes()
                        != #[trigger] base32::spelling(key) by {
                        base32::lemma_spelling(key);
                        assert(base32::base32(key) != upper@);
                    }
                }
                return Err(DeviceIdError::NotBase32);
            },
        };
        proof {
            // A text of small letters and digits that decodes is its own
            // canonical spelling.
            base32::lemma_spelling(key@);
            assert(base32::spelling(key@) =~= text@) by {
                assert forall|j: int| 0 <= j < 52 implies base32::spelling(key@)[j] == text@[j] by {
                    assert(base32::is_spelling_byte(text@[j]));
                    assert(base32::base32(key@)[j] == base32::upper_byte(text@[j]));
                }
            }
        }
        if decoded != 32 {
            return Err(DeviceIdError::KeyLength);
        }
        let canonical = spell_key(&key);
        if !same_bytes(canonical.as_slice(), text) {
            return Err(DeviceIdError::NotCanonical);
        }
        match parse_public_key(&key) {
            Ok(_) => Ok(key),
            Err(_) => {
                proof {
                    assert forall|b: Seq<u8>| b.len() == 32 && is_public_key(b) implies text@
                        != #[trigger] base32::spelling(b) by {
                        if text@ == base32::spelling(b) {
                            base32::lemma_spelling_injective(b, key@);
                        }
                    }
                    assert(base32::upper(text@) == base32::base32(key@) && !is_public_key(key@));
                }
                Err(DeviceIdError::InvalidKey)
            },
        }
    }

    /// The identity with a canonical spelling, checked before anything is
    /// allocated.
    pub fn from_canonical_str_uninterned(value: &str) -> (r: Result<Self, DeviceIdError>)
        ensures
            match r {
                Ok(id) => id.is_identity() && value.spec_bytes() == id.spelled(),
                Err(e) => is_refused(value.spec_bytes(), e),
            },
    {
        match Self::canonical_key_bytes(value) {
            Ok(bytes) => {
                let canonical = spell_key(&bytes);
                Ok(DeviceId { canonical, bytes })
            },
            Err(e) => Err(e),
        }
    }

    /// The identity of a raw public key.
    pub fn from_public_key_bytes(bytes: [u8; 32]) -> (r: Result<Self, DeviceIdError>)
        ensures
            match r {
                Ok(id) => id.is_identity() && id.key() == bytes@ && is_public_key(bytes@),
                Err(e) => e == DeviceIdError::InvalidKey && !is_public_key(bytes@),
            },
    {
        match parse_public_key(&bytes) {
            Ok(_) => {
                let canonical = spell_key(&bytes);
                Ok(DeviceId { canonical, bytes })
            },
            Err(_) => Err(DeviceIdError::InvalidKey),
        }
    }

    /// The identity with a canonical spelling.
    pub fn from_canonical_str(value: &str) -> (r: Result<Self, DeviceIdError>)
        ensures
            match r {
                Ok(id) => id.is_identity() && value.spec_bytes() == id.spelled(),
                Err(e) => {
                    let lowered = is_lowered(value@);
                    &&& forall|key: Seq<u8>|
                        key.len() == 32 && is_public_key(key) ==> value.spec_bytes()
                            != #[trigger] base32::spelling(key)
                    &&& e != DeviceIdError::Length
                    &&& e == DeviceIdError::NotLowercase <==> !lowered
                    &&& e == DeviceIdError::NotBase32 <==> lowered && forall|b: Seq<u8>|
                        !#[trigger] decodes(value@, b)
                    &&& e == DeviceIdError::KeyLength <==> exists|b: Seq<u8>|
                        #[trigger] decodes(value@, b) && b.len() != 32
                    &&& e == DeviceIdError::InvalidKey <==> exists|b: Seq<u8>|
                        #[trigger] decodes(value@, b) && b.len() == 32 && !is_public_key(b)
                    &&& e == DeviceIdError::NotCanonical <==> exists|b: Seq<u8>|
                        #[trigger] decodes(value@, b) && b.len() == 32 && is_public_key(b)
                },
            },
    {
        let ghost text = value.spec_bytes();
        let low = to_lowercase(value);
        let same_low = same_bytes(value.as_bytes(), low.as_str().as_bytes());
        let up = to_uppercase(value);
        let raised = up.as_str().as_bytes();
        let ghost lowered = is_lowered(value@);
        proof {
            if same_low {
                lemma_utf8_injective(value@, low@);
            }
            assert forall|key: Seq<u8>|
                key.len() == 32 && text == #[trigger] base32::spelling(key) implies lowered
                && raised@ == base32::base32(key) by {
                lemma_spelled_text(value@, key);
                assert(value.is_ascii());
                assert(low@ =~= value@);
                assert(up@ =~= ascii_text(base32::base32(key))) by {
                    base32::lemma_spelling(key);
                    assert(base32::upper(base32::spelling(key)) == base32::base32(key));
                    assert forall|i: int| 0 <= i < up@.len() implies up@[i] == ascii_text(
                        base32::base32(key),
                    )[i] by {
                        assert(value@[i] as u8 == base32::spelling(key)[i]);
                        assert(base32::upper(base32::spelling(key))[i] == base32::upper_byte(
                            base32::spelling(key)[i],
                        ));
                    }
                }
                base32::lemma_symbols(key);
                lemma_ascii_utf8(base32::base32(key));
            }
            assert forall|b: Seq<u8>, c: Seq<u8>| #[trigger] decodes(value@, b) && #[trigger] decodes(value@, c,
            ) implies b == c by {
                base32::lemma_base32_injective(b, c);
            }
        }
        if value.is_empty() || !same_low {
            return Err(DeviceIdError::NotLowercase);
        }
        if raised.len() > usize::MAX / 8 {
            proof {
                assert forall|key: Seq<u8>| key.len() == 32 implies text
                    != #[trigger] base32::spelling(key) by {
                    if text == base32::spelling(key) {
                        assert(raised@.len() == base32::base32(key).len());
                        assert(raised@.len() == 52);
                    }
                }
            }
            return Err(DeviceIdError::NotBase32);
        }
        let bytes: Vec<u8> = match decode_text(raised) {
            Ok(bytes) => bytes,
            Err(_) => {
                assert forall|b: Seq<u8>| !#[trigger] decodes(value@, b) by {
                    assert(base32::base32(b) != raised@);
                }
                return Err(DeviceIdError::NotBase32);
            },
        };
        assert(decodes(value@, bytes@));
        if bytes.len() != 32 {
            proof {
                assert forall|key: Seq<u8>| key.len() == 32 implies text
                    != #[trigger] base32::spelling(key) by {
                    if text == base32::spelling(key) {
                        assert(decodes(value@, key));
                    }
                }
            }
            return Err(DeviceIdError::KeyLength);
        }
        let mut key: [u8; 32] = [0u8;32];
        let mut i: usize = 0;
        while i < 32
            invariant
                i <= 32,
                bytes@.len() == 32,
                key@.len() == 32,
                forall|j: int| 0 <= j < i ==> key@[j] == bytes@[j],
            decreases 32 - i,
        {
            key[i] = bytes[i];
            i += 1;
        }
        assert(key@ =~= bytes@);
        if parse_public_key(&key).is_err() {
            proof {
                assert forall|k: Seq<u8>| k.len() == 32 && is_public_key(k) implies text
                    != #[trigger] base32::spelling(k) by {
                    if text == base32::spelling(k) {
                        assert(decodes(value@, k));
                    }
                }
            }
            return Err(DeviceIdError::InvalidKey);
        }
        let canonical = spell_key(&key);
        if !same_bytes(canonical.as_slice(), value.as_bytes()) {
            proof {
                assert forall|k: Seq<u8>| k.len() == 32 && is_public_key(k) implies text
                    != #[trigger] base32::spelling(k) by {
                    if text == base32::spelling(k) {
                        assert(decodes(value@, k));
                    }
                }
            }
            return Err(DeviceIdError::NotCanonical);
        }
        Ok(DeviceId { canonical, bytes: key })
    }

    pub fn as_bytes(&self) -> (r: [u8; 32])
        ensures
            r@ == self.key(),
    {
        self.bytes
    }

    /// The canonical spelling.
    pub fn base32(&self) -> (r: String)
        ensures
            r@ == ascii_text(self.spelled()),
            vstd::utf8::encode_utf8(r@) == self.spelled(),
    {
        proof {
            use_type_invariant(self);
            base32::lemma_spelling(self.bytes@);
            assert forall|i: int| 0 <= i < self.canonical@.len() implies #[trigger]
                self.canonical@[i] < 128 by {
                assert(base32::is_spelling_byte(base32::spelling(self.bytes@)[i]));
            }
            lemma_ascii_utf8(self.canonical@);
        }
        match utf8_text(self.canonical.as_slice()) {
            Some(text) => {
                proof {
                    lemma_utf8_ascii(text@, self.canonical@);
                }
                text.to_owned()
            },
            None => String::new(),
        }
    }

    pub fn same(&self, other: &DeviceId) -> (r: bool)
        ensures
            r <==> *self == *other,
    {
        match self.relate(other) {
            Rel::Same => true,
            _ => false,
        }
    }
}

impl Key for DeviceId {
    closed spec fn rank(self) -> Seq<int> {
        order::ints(self.canonical@) + order::ints(self.bytes@)
    }

    proof fn rank_injective(a: Self, b: Self) {
        let x = order::ints(a.canonical@);
        let y = order::ints(b.canonical@);
        assert(a.canonical@.len() == 52 && b.canonical@.len() == 52);
        assert(x =~= a.rank().take(52));
        assert(y =~= b.rank().take(52));
        assert(order::ints(a.bytes@) =~= a.rank().skip(52));
        assert(order::ints(b.bytes@) =~= b.rank().skip(52));
        order::lemma_ints_injective(a.canonical@, b.canonical@);
        order::lemma_ints_injective(a.bytes@, b.bytes@);
        Self::lemma_parts(a, b);
    }

    fn relate(&self, other: &Self) -> (r: Rel) {
        proof {
            let x = order::ints(self.canonical@);
            let y = order::ints(other.canonical@);
            let p = order::ints(self.bytes@);
            let q = order::ints(other.bytes@);
            assert(self.canonical@.len() == 52 && other.canonical@.len() == 52);
            order::lemma_lex_concat(x, y, p, q);
            order::lemma_lex_concat(y, x, q, p);
            order::lemma_lex_exclusive(x + p, y + q);
            order::lemma_lex_exclusive(y + q, x + p);
            Self::lemma_parts(*self, *other);
        }
        match rel_bytes(&self.canonical, &other.canonical) {
            Rel::Same => rel_bytes(&self.bytes, &other.bytes),
            other_rel => other_rel,
        }
    }
}

impl View for DeviceId {
    type V = DeviceId;

    open spec fn view(&self) -> DeviceId {
        *self
    }
}

impl Duplicate for DeviceId {
    fn duplicate(&self) -> (r: Self) {
        *self
    }
}

} // verus!
