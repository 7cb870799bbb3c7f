//! Object identifiers: twenty bytes, written as forty lower-case hex digits.

use vstd::prelude::*;
use vstd::std_specs::cmp::PartialEqSpecImpl;
use vstd::string::*;

verus! {

/// Number of bytes in an object identifier.
pub const OID_LEN: usize = 20;

/// Number of hex digits that spell an object identifier.
pub const OID_HEX_LEN: usize = 40;

/// The identity of a stored object (a commit or a tree).
///
/// Two identifiers are equal exactly when their bytes are.
#[derive(Clone, Copy, Debug, Eq, Hash)]
pub struct Oid {
    pub bytes: [u8; 20],
}

impl PartialEq for Oid {
    fn eq(&self, other: &Oid) -> (r: bool) {
        let mut i: usize = 0;
        while i < 20
            invariant
                i <= 20,
                forall|j: int| 0 <= j < i ==> self.bytes[j] == other.bytes[j],
            decreases 20 - i,
        {
            if self.bytes[i] != other.bytes[i] {
                return false;
            }
            i += 1;
        }
        assert(self.bytes =~= other.bytes);
        true
    }
}

impl PartialEqSpecImpl for Oid {
    open spec fn obeys_eq_spec() -> bool {
        true
    }

    open spec fn eq_spec(&self, other: &Oid) -> bool {
        *self == *other
    }
}

/// A hex digit in either case: `0`-`9`, `a`-`f`, `A`-`F`.
pub open spec fn is_hex_digit(c: char) -> bool {
    ('0' <= c && c <= '9') || ('a' <= c && c <= 'f') || ('A' <= c && c <= 'F')
}

/// A hex digit as object identifiers are written: `0`-`9`, `a`-`f`.
pub open spec fn is_lower_hex_digit(c: char) -> bool {
    ('0' <= c && c <= '9') || ('a' <= c && c <= 'f')
}

/// The number that a hex digit stands for.
pub open spec fn hex_value(c: char) -> int {
    if '0' <= c && c <= '9' {
        c as int - '0' as int
    } else if 'a' <= c && c <= 'f' {
        c as int - 'a' as int + 10
    } else {
        c as int - 'A' as int + 10
    }
}

/// The digit at position `p` of `s`, or zero past its end.
pub open spec fn hex_nibble(s: Seq<char>, p: int) -> int {
    if 0 <= p < s.len() {
        hex_value(s[p])
    } else {
        0
    }
}

/// Byte `k` of the identifier that the digits `s` spell: two digits per
/// byte, the high half first, missing digits counting as zero.
pub open spec fn hex_byte(s: Seq<char>, k: int) -> int {
    16 * hex_nibble(s, 2 * k) + hex_nibble(s, 2 * k + 1)
}

/// `id` is the identifier that the digits `s` spell.
pub open spec fn hex_spells(s: Seq<char>, id: Oid) -> bool {
    forall|k: int| 0 <= k < 20 ==> id.bytes[k] as int == #[trigger] hex_byte(s, k)
}

/// The identifier that the digits `s` spell.
pub open spec fn oid_of_hex(s: Seq<char>) -> Oid {
    choose|id: Oid| hex_spells(s, id)
}

/// `s` is a full identifier: exactly forty lower-case hex digits.
pub open spec fn is_oid_hex(s: Seq<char>) -> bool {
    s.len() == 40 && forall|i: int| 0 <= i < s.len() ==> is_lower_hex_digit(#[trigger] s[i])
}

/// The digits that `git2::Oid::from_str` accepts: one to forty hex digits
/// of either case.
pub open spec fn is_oid_prefix_hex(s: Seq<char>) -> bool {
    1 <= s.len() <= 40 && forall|i: int| 0 <= i < s.len() ==> is_hex_digit(#[trigger] s[i])
}

/// At most one identifier is spelled by a string of digits.
pub proof fn lemma_hex_spells_one(s: Seq<char>, a: Oid, b: Oid)
    requires
        hex_spells(s, a),
        hex_spells(s, b),
    ensures
        a == b,
{
    assert forall|k: int| 0 <= k < 20 implies a.bytes[k] == b.bytes[k] by {
        assert(a.bytes[k] as int == hex_byte(s, k));
        assert(b.bytes[k] as int == hex_byte(s, k));
    }
    assert(a.bytes =~= b.bytes);
}

/// `git2::Oid::from_str`: parses hex digits into an identifier.
///
/// The contract claims what the function's documentation and source show:
/// it succeeds exactly on one to forty hex digits of either case, and the
/// identifier then holds the digits two per byte, high half first, with
/// zeros where digits are missing. Nothing of this is proved here.
#[verifier::external_body]
fn git_oid_from_str(s: &str) -> (r: Option<Oid>)
    ensures
        r is Some <==> is_oid_prefix_hex(s@),
        r matches Some(id) ==> hex_spells(s@, id),
{
    match git2::Oid::from_str(s) {
        Ok(id) => {
            let mut bytes = [0u8; 20];
            bytes.copy_from_slice(id.as_bytes());
            Some(Oid { bytes })
        },
        Err(_) => None,
    }
}

/// Whether `s` is forty lower-case hex digits.
pub fn is_oid_hex_str(s: &str) -> (b: bool)
    ensures
        b == is_oid_hex(s@),
{
    broadcast use is_ascii_spec_bytes;

    if !s.is_ascii() {
        return false;
    }
    let bytes = s.as_bytes();
    if bytes.len() != OID_HEX_LEN {
        return false;
    }
    let mut i: usize = 0;
    while i < OID_HEX_LEN
        invariant
            i <= 40,
            bytes@.len() == 40,
            s@.len() == 40,
            is_ascii(s),
            forall|j: int| 0 <= j < 40 ==> bytes@[j] == s@[j] as u8,
            forall|j: int| 0 <= j < i ==> is_lower_hex_digit(#[trigger] s@[j]),
        decreases 40 - i,
    {
        let b: u8 = bytes[i];
        let digit = (0x30 <= b && b <= 0x39) || (0x61 <= b && b <= 0x66);
        assert(digit == is_lower_hex_digit(s@[i as int]));
        if !digit {
            return false;
        }
        i += 1;
    }
    true
}

impl Oid {
    /// The identifier with the given bytes.
    pub fn from_bytes(bytes: [u8; 20]) -> (id: Oid)
        ensures
            id.bytes == bytes,
    {
        Oid { bytes }
    }

    /// The bytes of the identifier.
    pub fn as_bytes(&self) -> (bytes: &[u8; 20])
        ensures
            *bytes == self.bytes,
    {
        &self.bytes
    }

    /// Parses a full identifier.
    ///
    /// Accepts exactly forty lower-case hex digits, and nothing else: no
    /// shorter prefix, no upper-case digit.
    pub fn from_hex(s: &str) -> (r: Option<Oid>)
        ensures
            r == (if is_oid_hex(s@) {
                Some(oid_of_hex(s@))
            } else {
                None
            }),
            r matches Some(id) ==> hex_spells(s@, id),
    {
        if is_oid_hex_str(s) {
            let r = git_oid_from_str(s);
            proof {
                assert(is_oid_prefix_hex(s@));
                lemma_hex_spells_one(s@, r.unwrap(), oid_of_hex(s@));
            }
            r
        } else {
            None
        }
    }
}

} // verus!
