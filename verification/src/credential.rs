//! The opaque credential and its extraction from a header-style carrier.
//!
//! A credential is a bearer token: an immutable byte string with value
//! equality and no further structure. The request/response transport carries
//! it in a header named `token` (matched without regard to ASCII case); the
//! streaming transport carries it in the handshake payload (see
//! `handshake`). Absence of a credential is a valid, common case, never an
//! error.

use vstd::prelude::*;

verus! {

use vstd::string::StrSliceExecFns;
use vstd::string::StringSliceAdditionalSpecFns;

/// An opaque, immutable bearer credential. Equality is value equality on the
/// underlying bytes; the layer imposes no structure on the contents and never
/// interprets them.
pub struct Credential {
    bytes: Vec<u8>,
}

impl View for Credential {
    type V = Seq<u8>;

    closed spec fn view(&self) -> Seq<u8> {
        self.bytes@
    }
}

/// Copies a byte string.
fn copy_bytes(v: &Vec<u8>) -> (r: Vec<u8>)
    ensures
        r@ == v@,
{
    let mut r: Vec<u8> = Vec::new();
    let mut i: usize = 0;
    while i < v.len()
        invariant
            i <= v.len(),
            r@ == v@.subrange(0, i as int),
        decreases v.len() - i,
    {
        r.push(v[i]);
        i = i + 1;
        proof {
            assert(r@ =~= v@.subrange(0, i as int));
        }
    }
    proof {
        assert(r@ =~= v@);
    }
    r
}

impl Credential {
    /// Wraps raw bytes as a credential.
    pub fn new(bytes: Vec<u8>) -> (c: Credential)
        ensures
            c@ == bytes@,
    {
        Credential { bytes }
    }

    /// Wraps the UTF-8 bytes of a text value as a credential.
    pub fn from_text(text: &str) -> (c: Credential)
        ensures
            c@ == text.spec_bytes(),
    {
        Credential { bytes: text.as_bytes_vec() }
    }

    /// The raw bytes of the credential.
    pub fn value(&self) -> (b: &Vec<u8>)
        ensures
            b@ == self@,
    {
        &self.bytes
    }
}

impl Clone for Credential {
    fn clone(&self) -> (c: Self)
        ensures
            c@ == self@,
    {
        Credential { bytes: copy_bytes(&self.bytes) }
    }
}

/// The view of an optional credential: the bytes it wraps, if any.
pub open spec fn cred_view(c: Option<Credential>) -> Option<Seq<u8>> {
    match c {
        Some(c) => Some(c@),
        None => None,
    }
}

/// One header of the request/response transport's carrier: a name and a raw
/// value, both byte strings as they stand on the wire.
pub struct HeaderEntry {
    pub name: Vec<u8>,
    pub value: Vec<u8>,
}

/// A read-only header-style carrier: the ordered headers of one exchange.
pub struct HeaderCarrier {
    pub entries: Vec<HeaderEntry>,
}

impl View for HeaderCarrier {
    type V = Seq<(Seq<u8>, Seq<u8>)>;

    open spec fn view(&self) -> Seq<(Seq<u8>, Seq<u8>)> {
        self.entries@.map_values(|e: HeaderEntry| (e.name@, e.value@))
    }
}

/// ASCII lower case of one byte; other bytes are unchanged.
pub open spec fn ascii_lower(b: u8) -> u8 {
    if 65 <= b <= 90 {
        (b + 32) as u8
    } else {
        b
    }
}

/// Header names match without regard to ASCII case.
pub open spec fn names_equal(a: Seq<u8>, b: Seq<u8>) -> bool {
    a.len() == b.len() && forall|i: int| 0 <= i < a.len() ==> ascii_lower(a[i]) == ascii_lower(b[i])
}

/// The well-known credential header name: `token`.
pub open spec fn credential_header_name() -> Seq<u8> {
    seq![116u8, 111u8, 107u8, 101u8, 110u8]
}

/// Whether a header name is the credential header, without regard to case.
pub open spec fn is_credential_name(name: Seq<u8>) -> bool {
    names_equal(name, credential_header_name())
}

/// A byte a header value may carry while still being representable as a
/// credential string: visible ASCII, including the space.
pub open spec fn representable_byte(b: u8) -> bool {
    32 <= b <= 126
}

/// A header value representable as a credential: non-empty, visible ASCII.
/// Anything else is treated as absent, never as an error.
pub open spec fn representable_value(v: Seq<u8>) -> bool {
    v.len() > 0 && forall|i: int| 0 <= i < v.len() ==> representable_byte(v[i])
}

/// What extraction from a header carrier yields: the value of the first
/// header named `token` (without regard to case) when that value is
/// representable as a credential, and no credential otherwise.
pub open spec fn header_extraction(entries: Seq<(Seq<u8>, Seq<u8>)>) -> Option<Seq<u8>>
    decreases entries.len(),
{
    if entries.len() == 0 {
        None
    } else if is_credential_name(entries[0].0) {
        if representable_value(entries[0].1) {
            Some(entries[0].1)
        } else {
            None
        }
    } else {
        header_extraction(entries.drop_first())
    }
}

/// ASCII lower case of one byte.
fn lower_byte(b: u8) -> (r: u8)
    ensures
        r == ascii_lower(b),
{
    if 65 <= b && b <= 90 {
        b + 32
    } else {
        b
    }
}

/// Whether a header name is the credential header, without regard to case.
fn name_is_credential(name: &Vec<u8>) -> (r: bool)
    ensures
        r == is_credential_name(name@),
{
    if name.len() != 5 {
        assert(!is_credential_name(name@));
        return false;
    }
    let r = lower_byte(name[0]) == 116 && lower_byte(name[1]) == 111 && lower_byte(name[2]) == 107
        && lower_byte(name[3]) == 101 && lower_byte(name[4]) == 110;
    proof {
        if r {
            assert forall|i: int| 0 <= i < name@.len() implies ascii_lower(name@[i]) == ascii_lower(
                credential_header_name()[i],
            ) by {
                if i == 0 {
                } else if i == 1 {
                } else if i == 2 {
                } else if i == 3 {
                } else {
                    assert(i == 4);
                }
            }
        }
    }
    r
}

/// Whether a header value is representable as a credential.
fn value_is_representable(v: &Vec<u8>) -> (r: bool)
    ensures
        r == representable_value(v@),
{
    if v.len() == 0 {
        return false;
    }
    let mut i: usize = 0;
    while i < v.len()
        invariant
            i <= v.len(),
            v@.len() > 0,
            forall|j: int| 0 <= j < i ==> representable_byte(v@[j]),
        decreases v.len() - i,
    {
        let b = v[i];
        if b < 32 || b > 126 {
            return false;
        }
        i = i + 1;
    }
    true
}

/// Extracts the credential from a header-style carrier: the value of the
/// first header named `token` (matched without regard to ASCII case), when
/// that value is non-empty visible ASCII. A missing header, or a value not
/// representable as a credential, yields no credential; this function never
/// fails.
pub fn extract_from_headers(carrier: &HeaderCarrier) -> (r: Option<Credential>)
    ensures
        cred_view(r) == header_extraction(carrier@),
{
    let ghost all = carrier@;
    proof {
        assert(all.skip(0) =~= all);
    }
    let mut i: usize = 0;
    while i < carrier.entries.len()
        invariant
            i <= carrier.entries.len(),
            all == carrier@,
            all.len() == carrier.entries.len(),
            forall|j: int| 0 <= j < all.len() ==> all[j]
                == (carrier.entries@[j].name@, carrier.entries@[j].value@),
            header_extraction(all) == header_extraction(all.skip(i as int)),
        decreases carrier.entries.len() - i,
    {
        let entry = &carrier.entries[i];
        proof {
            assert(all.skip(i as int)[0] == all[i as int]);
        }
        if name_is_credential(&entry.name) {
            if value_is_representable(&entry.value) {
                return Some(Credential { bytes: copy_bytes(&entry.value) });
            } else {
                return None;
            }
        }
        proof {
            assert(all.skip(i as int).drop_first() =~= all.skip(i as int + 1));
        }
        i = i + 1;
    }
    proof {
        assert(all.skip(i as int).len() == 0);
    }
    None
}

/// One value of a handshake payload, as the streaming transport hands it
/// over after decoding: a piece of text, a number, a truth value, or null.
pub enum PayloadValue {
    Text(String),
    Number(i64),
    Truth(bool),
    Null,
}

/// The mathematical shape of a payload value.
pub ghost enum PayloadValueModel {
    Text(Seq<char>),
    Number(i64),
    Truth(bool),
    Null,
}

impl View for PayloadValue {
    type V = PayloadValueModel;

    open spec fn view(&self) -> PayloadValueModel {
        match self {
            PayloadValue::Text(t) => PayloadValueModel::Text(t@),
            PayloadValue::Number(n) => PayloadValueModel::Number(*n),
            PayloadValue::Truth(b) => PayloadValueModel::Truth(*b),
            PayloadValue::Null => PayloadValueModel::Null,
        }
    }
}

/// One named field of a handshake payload.
pub struct PayloadField {
    pub name: String,
    pub value: PayloadValue,
}

/// The payload of a streaming-transport `connection_init` message, read-only
/// from this layer's perspective.
pub struct InitPayload {
    pub fields: Vec<PayloadField>,
}

impl View for InitPayload {
    type V = Seq<(Seq<char>, PayloadValueModel)>;

    open spec fn view(&self) -> Seq<(Seq<char>, PayloadValueModel)> {
        self.fields@.map_values(|f: PayloadField| (f.name@, f.value@))
    }
}

/// The well-known credential field of a handshake payload.
pub open spec fn credential_field_name() -> Seq<char> {
    "token"@
}

/// What extraction from a handshake payload yields: the UTF-8 bytes of the
/// first field named `token` when that field holds non-empty text, and no
/// credential otherwise.
pub open spec fn payload_extraction(fields: Seq<(Seq<char>, PayloadValueModel)>) -> Option<
    Seq<u8>,
>
    decreases fields.len(),
{
    if fields.len() == 0 {
        None
    } else if fields[0].0 == credential_field_name() {
        match fields[0].1 {
            PayloadValueModel::Text(t) => if t.len() > 0 {
                Some(vstd::utf8::encode_utf8(t))
            } else {
                None
            },
            _ => None,
        }
    } else {
        payload_extraction(fields.drop_first())
    }
}

/// Extracts the credential from a `connection_init` payload: the first field
/// named `token` yields a credential exactly when it holds non-empty text.
/// A missing field, an empty text, or a field of another shape yields no
/// credential; this function never fails.
pub fn extract_from_payload(payload: &InitPayload) -> (r: Option<Credential>)
    ensures
        cred_view(r) == payload_extraction(payload@),
{
    let ghost all = payload@;
    proof {
        assert(all.skip(0) =~= all);
    }
    let key: String = "token".to_owned();
    let mut i: usize = 0;
    while i < payload.fields.len()
        invariant
            i <= payload.fields.len(),
            all == payload@,
            key@ == credential_field_name(),
            all.len() == payload.fields.len(),
            forall|j: int| 0 <= j < all.len() ==> all[j]
                == (payload.fields@[j].name@, payload.fields@[j].value@),
            payload_extraction(all) == payload_extraction(all.skip(i as int)),
        decreases payload.fields.len() - i,
    {
        let field = &payload.fields[i];
        proof {
            assert(all.skip(i as int)[0] == all[i as int]);
        }
        if field.name == key {
            match &field.value {
                PayloadValue::Text(t) => {
                    if t.as_str().is_empty() {
                        return None;
                    } else {
                        return Some(Credential { bytes: t.as_str().as_bytes_vec() });
                    }
                },
                _ => {
                    return None;
                },
            }
        }
        proof {
            assert(all.skip(i as int).drop_first() =~= all.skip(i as int + 1));
        }
        i = i + 1;
    }
    proof {
        assert(all.skip(i as int).len() == 0);
    }
    None
}

/// No field named `token` in the payload: extraction yields no credential.
pub proof fn lemma_absent_field_yields_none(fields: Seq<(Seq<char>, PayloadValueModel)>)
    requires
        forall|i: int| 0 <= i < fields.len() ==> #[trigger] fields[i].0 != credential_field_name(),
    ensures
        payload_extraction(fields) is None,
    decreases fields.len(),
{
    if fields.len() > 0 {
        lemma_absent_field_yields_none(fields.drop_first());
    }
}

/// Every field named `token` in the payload is empty text or not text at
/// all: extraction yields no credential rather than a credential wrapping
/// malformed data.
pub proof fn lemma_malformed_field_yields_none(fields: Seq<(Seq<char>, PayloadValueModel)>)
    requires
        forall|i: int|
            0 <= i < fields.len() && #[trigger] fields[i].0 == credential_field_name()
                ==> !(fields[i].1 is Text && fields[i].1->Text_0.len() > 0),
    ensures
        payload_extraction(fields) is None,
    decreases fields.len(),
{
    if fields.len() > 0 {
        if fields[0].0 != credential_field_name() {
            lemma_malformed_field_yields_none(fields.drop_first());
        }
    }
}

/// No header named `token` in the carrier: extraction yields no credential,
/// and never an error, whatever else the carrier holds.
pub proof fn lemma_absent_key_yields_none(entries: Seq<(Seq<u8>, Seq<u8>)>)
    requires
        forall|i: int| 0 <= i < entries.len() ==> !is_credential_name(#[trigger] entries[i].0),
    ensures
        header_extraction(entries) is None,
    decreases entries.len(),
{
    if entries.len() > 0 {
        assert(!is_credential_name(entries[0].0));
        lemma_absent_key_yields_none(entries.drop_first());
    }
}

/// Every header named `token` carries a value not representable as a
/// credential (empty or not visible ASCII): extraction yields no credential
/// rather than a credential wrapping malformed data.
pub proof fn lemma_malformed_value_yields_none(entries: Seq<(Seq<u8>, Seq<u8>)>)
    requires
        forall|i: int|
            0 <= i < entries.len() && is_credential_name(#[trigger] entries[i].0)
                ==> !representable_value(entries[i].1),
    ensures
        header_extraction(entries) is None,
    decreases entries.len(),
{
    if entries.len() > 0 {
        if !is_credential_name(entries[0].0) {
            lemma_malformed_value_yields_none(entries.drop_first());
        }
    }
}

} // verus!
