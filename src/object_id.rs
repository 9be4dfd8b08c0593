//! Document identifiers: twelve bytes, written as twenty-four hex digits.
use vstd::prelude::*;

verus! {

pub open spec fn is_hex_digit(c: char) -> bool {
    ('0' <= c && c <= '9') || ('a' <= c && c <= 'f') || ('A' <= c && c <= 'F')
}

pub open spec fn is_lower_hex_digit(c: char) -> bool {
    ('0' <= c && c <= '9') || ('a' <= c && c <= 'f')
}

/// The value of a hex digit, in either case.
pub open spec fn hex_value(c: char) -> int {
    if '0' <= c && c <= '9' {
        c as int - '0' as int
    } else if 'a' <= c && c <= 'f' {
        c as int - 'a' as int + 10
    } else {
        c as int - 'A' as int + 10
    }
}

/// The text of a well-formed identifier: exactly twenty-four hex digits.
pub open spec fn is_id_text(s: Seq<char>) -> bool {
    s.len() == 24 && forall|i: int| 0 <= i < 24 ==> #[trigger] is_hex_digit(s[i])
}

/// The twelve bytes that a well-formed identifier text stands for, two digits per byte.
pub open spec fn id_bytes_of(s: Seq<char>) -> Seq<u8> {
    Seq::new(12, |i: int| (hex_value(s[2 * i]) * 16 + hex_value(s[2 * i + 1])) as u8)
}

/// `s` is `b` written in lower-case hex, high digit first.
pub open spec fn is_lower_hex_of(s: Seq<char>, b: Seq<u8>) -> bool {
    &&& s.len() == 2 * b.len()
    &&& forall|i: int|
        0 <= i < b.len() ==> {
            &&& is_lower_hex_digit(#[trigger] s[2 * i])
            &&& is_lower_hex_digit(s[2 * i + 1])
            &&& hex_value(s[2 * i]) == b[i] / 16
            &&& hex_value(s[2 * i + 1]) == b[i] % 16
        }
}

/// The identifier of a stored document.
#[derive(Clone, Copy, Debug, PartialEq, Eq)]
pub struct DocId {
    pub bytes: [u8; 12],
}

impl DocId {
    pub open spec fn view(&self) -> Seq<u8> {
        self.bytes@
    }

    /// Parses the twenty-four hex digit form of an identifier.
    pub fn parse(s: &str) -> (r: Option<DocId>)
        ensures
            r.is_some() == is_id_text(s@),
            r matches Some(id) ==> id@ == id_bytes_of(s@),
    {
        match parse_object_id(s) {
            Some(bytes) => Some(DocId { bytes }),
            None => None,
        }
    }

    /// The identifier in lower-case hex, the form that `parse` reads back.
    pub fn to_hex(&self) -> (r: String)
        ensures
            is_lower_hex_of(r@, self@),
            is_id_text(r@),
            id_bytes_of(r@) == self@,
    {
        let r = object_id_hex(&self.bytes);
        proof {
            lemma_hex_round_trip(r@, self@);
        }
        r
    }

    /// A new identifier, generated from the clock, a per-process random value and a counter.
    pub fn generate() -> (r: DocId) {
        DocId { bytes: new_object_id() }
    }

    /// Whether two identifiers hold the same bytes.
    pub fn same(&self, other: &DocId) -> (r: bool)
        ensures
            r == (self@ == other@),
    {
        let mut i: usize = 0;
        while i < 12
            invariant
                0 <= i <= 12,
                self@.len() == 12,
                other@.len() == 12,
                forall|j: int| 0 <= j < i ==> self@[j] == other@[j],
            decreases 12 - i,
        {
            if self.bytes[i] != other.bytes[i] {
                return false;
            }
            i = i + 1;
        }
        assert(self@ =~= other@);
        true
    }
}

/// Lower-case hex text of twelve bytes reads back as those twelve bytes.
pub proof fn lemma_hex_round_trip(s: Seq<char>, b: Seq<u8>)
    requires
        b.len() == 12,
        is_lower_hex_of(s, b),
    ensures
        is_id_text(s),
        id_bytes_of(s) == b,
{
    assert forall|i: int| 0 <= i < 24 implies #[trigger] is_hex_digit(s[i]) by {
        let k = i / 2;
        assert(0 <= k < 12);
        if i % 2 == 0 {
            assert(s[2 * k] == s[i]);
        } else {
            assert(s[2 * k + 1] == s[i]);
        }
    }
    assert forall|i: int| 0 <= i < 12 implies #[trigger] id_bytes_of(s)[i] == b[i] by {
        assert(is_lower_hex_digit(s[2 * i]));
        assert(hex_value(s[2 * i]) * 16 + hex_value(s[2 * i + 1]) == b[i] as int);
    }
    assert(id_bytes_of(s) =~= b);
}

/// Relies on bson's `ObjectId::parse_str`, which decodes with `hex::decode`: it
/// succeeds exactly on twenty-four hex digits of either case and yields the bytes
/// they encode, high digit first.
#[verifier::external_body]
fn parse_object_id(s: &str) -> (r: Option<[u8; 12]>)
    ensures
        r.is_some() == is_id_text(s@),
        r matches Some(b) ==> b@ == id_bytes_of(s@),
{
    match mongodb::bson::oid::ObjectId::parse_str(s) {
        Ok(oid) => Some(oid.bytes()),
        Err(_) => None,
    }
}

/// Relies on bson's `ObjectId::to_hex`, which is `hex::encode`: two lower-case
/// digits per byte, high digit first.
#[verifier::external_body]
fn object_id_hex(bytes: &[u8; 12]) -> (r: String)
    ensures
        is_lower_hex_of(r@, bytes@),
{
    mongodb::bson::oid::ObjectId::from_bytes(*bytes).to_hex()
}

/// Relies on bson's `ObjectId::new`: nothing is promised of the bytes, which come
/// from the clock, a random value and a counter.
#[verifier::external_body]
fn new_object_id() -> (r: [u8; 12]) {
    mongodb::bson::oid::ObjectId::new().bytes()
}

} // verus!
