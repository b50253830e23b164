//! Note identifiers — ULIDs in Crockford base32 form.
//!
//! ULID = 26 chars, lexicographically sortable, time-ordered, conflict-free
//! across devices for offline-first sync. `NoteId` wraps the 128-bit value
//! so the rest of the library never passes a raw string where a validated
//! id is expected.
use vstd::prelude::*;

verus! {

/// Crockford base32 digits in value order.
pub open spec fn crockford_digit(d: int) -> char {
    if d < 10 {
        ((48 + d) as u8) as char
    } else {
        let letters = seq![
            'A', 'B', 'C', 'D', 'E', 'F', 'G', 'H', 'J', 'K', 'M', 'N', 'P', 'Q', 'R', 'S', 'T',
            'V', 'W', 'X', 'Y', 'Z',
        ];
        letters[d - 10]
    }
}

/// Value of a Crockford base32 character (upper or lower case); `None`
/// for anything else, including the excluded letters I, L, O and U.
pub open spec fn crockford_value(c: char) -> Option<int> {
    let u = c as u32;
    if 48 <= u <= 57 {
        Some(u - 48)
    } else {
        let l = if 97 <= u <= 122 {
            u - 32
        } else {
            u as int
        };
        if l == 65 {
            Some(10)
        } else if l == 66 {
            Some(11)
        } else if l == 67 {
            Some(12)
        } else if l == 68 {
            Some(13)
        } else if l == 69 {
            Some(14)
        } else if l == 70 {
            Some(15)
        } else if l == 71 {
            Some(16)
        } else if l == 72 {
            Some(17)
        } else if l == 74 {
            Some(18)
        } else if l == 75 {
            Some(19)
        } else if l == 77 {
            Some(20)
        } else if l == 78 {
            Some(21)
        } else if 80 <= l <= 84 {
            Some(l - 58)
        } else if 86 <= l <= 90 {
            Some(l - 59)
        } else {
            None
        }
    }
}

/// Whether `s` is the text of a ULID: exactly 26 Crockford characters.
pub open spec fn ulid_text_valid(s: Seq<char>) -> bool {
    &&& s.len() == 26
    &&& forall|i: int| 0 <= i < 26 ==> (#[trigger] crockford_value(s[i])) is Some
}

/// 2^128.
pub open spec fn two_pow_128() -> int {
    pow32(25) * 8
}

/// Value of the first `n` characters of `s` read as base 32, kept to 128
/// bits (the top bits of an over-long first digit are dropped).
pub open spec fn ulid_text_value(s: Seq<char>, n: int) -> int
    decreases n,
{
    if n <= 0 {
        0
    } else {
        let d = match crockford_value(s[n - 1]) {
            Some(v) => v,
            None => 0,
        };
        (ulid_text_value(s, n - 1) * 32 + d) % two_pow_128()
    }
}

/// 32^k.
pub open spec fn pow32(k: nat) -> int
    decreases k,
{
    if k == 0 {
        1
    } else {
        32 * pow32((k - 1) as nat)
    }
}

/// The canonical 26-character text of a 128-bit value: most significant
/// digit first, upper case.
pub open spec fn ulid_encode(v: u128) -> Seq<char> {
    Seq::new(26, |i: int| crockford_digit((v as int / pow32((25 - i) as nat)) % 32))
}

/// Errors from [`NoteId::parse`].
#[derive(Debug)]
pub enum IdError {
    Invalid(String),
}

impl IdError {
    /// The error's message.
    pub fn to_string(&self) -> (r: String)
        ensures
            r@ == match self {
                IdError::Invalid(m) => "invalid ULID: "@ + m@,
            },
    {
        match self {
            IdError::Invalid(m) => crate::text::joined("invalid ULID: ", m.as_str()),
        }
    }
}

/// 26-character Crockford-base32 ULID.
#[derive(Debug, Clone, Copy, PartialEq, Eq, Hash, Structural)]
pub struct NoteId {
    pub value: u128,
}

/// A fresh ULID from the current time and randomness (`ulid::Ulid::new`).
/// Nothing is stated of its value: it depends on the clock and on chance.
#[verifier::external_body]
pub(crate) fn ulid_new() -> u128 {
    ulid::Ulid::new().0
}

/// Decodes ULID text (`ulid::Ulid::from_string`). Per the crate's source it
/// accepts exactly 26 characters from its lookup table (digits and the
/// Crockford letters in either case) and folds them, five bits each, into
/// a `u128`, dropping bits above 128.
#[verifier::external_body]
fn ulid_from_string(s: &str) -> (r: Result<u128, ulid::DecodeError>)
    ensures
        r is Ok <==> ulid_text_valid(s@),
        r matches Ok(v) ==> v == ulid_text_value(s@, 26),
{
    ulid::Ulid::from_string(s).map(|u| u.0)
}

/// The canonical text of a ULID (`ulid::Ulid::to_string`): 26 upper-case
/// Crockford digits, most significant first.
#[verifier::external_body]
fn ulid_to_string(v: u128) -> (r: String)
    ensures
        r@ == ulid_encode(v),
{
    ulid::Ulid(v).to_string()
}

/// The message of a decode failure (its `Display`).
#[verifier::external_body]
fn decode_error_text(e: &ulid::DecodeError) -> String {
    e.to_string()
}

/// `ulid::DecodeError`, carried opaquely until its message is taken.
#[verifier::external_type_specification]
#[verifier::external_body]
pub struct ExDecodeError(ulid::DecodeError);

impl NoteId {
    /// Generate a fresh time-ordered id.
    pub fn new() -> NoteId {
        NoteId { value: ulid_new() }
    }

    /// Parse from the canonical 26-char Crockford-base32 form.
    pub fn parse(s: &str) -> (r: Result<NoteId, IdError>)
        ensures
            r is Ok <==> ulid_text_valid(s@),
            r matches Ok(id) ==> id.value == ulid_text_value(s@, 26),
    {
        match ulid_from_string(s) {
            Ok(v) => Ok(NoteId { value: v }),
            Err(e) => Err(IdError::Invalid(decode_error_text(&e))),
        }
    }

    /// The canonical 26-character text of the id.
    pub fn to_string(&self) -> (r: String)
        ensures
            r@ == ulid_encode(self.value),
    {
        ulid_to_string(self.value)
    }
}

impl Default for NoteId {
    /// A fresh id, as [`NoteId::new`] gives.
    fn default() -> (r: NoteId) {
        NoteId::new()
    }
}

} // verus!
verus! {

// ───────────────────────── text round trip ─────────────────────────────

pub proof fn lemma_digit_round_trip(d: int)
    requires
        0 <= d < 32,
    ensures
        crockford_value(crockford_digit(d)) == Some(d),
{
    if d == 0 {
        assert(crockford_value(crockford_digit(0)) == Some(0int));
    } else if d == 1 {
        assert(crockford_value(crockford_digit(1)) == Some(1int));
    } else if d == 2 {
        assert(crockford_value(crockford_digit(2)) == Some(2int));
    } else if d == 3 {
        assert(crockford_value(crockford_digit(3)) == Some(3int));
    } else if d == 4 {
        assert(crockford_value(crockford_digit(4)) == Some(4int));
    } else if d == 5 {
        assert(crockford_value(crockford_digit(5)) == Some(5int));
    } else if d == 6 {
        assert(crockford_value(crockford_digit(6)) == Some(6int));
    } else if d == 7 {
        assert(crockford_value(crockford_digit(7)) == Some(7int));
    } else if d == 8 {
        assert(crockford_value(crockford_digit(8)) == Some(8int));
    } else if d == 9 {
        assert(crockford_value(crockford_digit(9)) == Some(9int));
    } else if d == 10 {
        assert(crockford_value(crockford_digit(10)) == Some(10int));
    } else if d == 11 {
        assert(crockford_value(crockford_digit(11)) == Some(11int));
    } else if d == 12 {
        assert(crockford_value(crockford_digit(12)) == Some(12int));
    } else if d == 13 {
        assert(crockford_value(crockford_digit(13)) == Some(13int));
    } else if d == 14 {
        assert(crockford_value(crockford_digit(14)) == Some(14int));
    } else if d == 15 {
        assert(crockford_value(crockford_digit(15)) == Some(15int));
    } else if d == 16 {
        assert(crockford_value(crockford_digit(16)) == Some(16int));
    } else if d == 17 {
        assert(crockford_value(crockford_digit(17)) == Some(17int));
    } else if d == 18 {
        assert(crockford_value(crockford_digit(18)) == Some(18int));
    } else if d == 19 {
        assert(crockford_value(crockford_digit(19)) == Some(19int));
    } else if d == 20 {
        assert(crockford_value(crockford_digit(20)) == Some(20int));
    } else if d == 21 {
        assert(crockford_value(crockford_digit(21)) == Some(21int));
    } else if d == 22 {
        assert(crockford_value(crockford_digit(22)) == Some(22int));
    } else if d == 23 {
        assert(crockford_value(crockford_digit(23)) == Some(23int));
    } else if d == 24 {
        assert(crockford_value(crockford_digit(24)) == Some(24int));
    } else if d == 25 {
        assert(crockford_value(crockford_digit(25)) == Some(25int));
    } else if d == 26 {
        assert(crockford_value(crockford_digit(26)) == Some(26int));
    } else if d == 27 {
        assert(crockford_value(crockford_digit(27)) == Some(27int));
    } else if d == 28 {
        assert(crockford_value(crockford_digit(28)) == Some(28int));
    } else if d == 29 {
        assert(crockford_value(crockford_digit(29)) == Some(29int));
    } else if d == 30 {
        assert(crockford_value(crockford_digit(30)) == Some(30int));
    } else if d == 31 {
        assert(crockford_value(crockford_digit(31)) == Some(31int));
    }
}

pub proof fn lemma_pow32_positive(k: nat)
    ensures
        pow32(k) > 0,
    decreases k,
{
    if k > 0 {
        lemma_pow32_positive((k - 1) as nat);
    }
}

proof fn lemma_two_pow_128()
    ensures
        two_pow_128() == 0x1_0000_0000_0000_0000_0000_0000_0000_0000int,
{
    reveal_with_fuel(pow32, 26);
}

proof fn lemma_prefix_value(v: u128, k: int)
    requires
        0 <= k <= 26,
    ensures
        ulid_text_value(ulid_encode(v), k) == v as int / pow32((26 - k) as nat),
    decreases k,
{
    let s = ulid_encode(v);
    if k == 0 {
        lemma_two_pow_128();
        lemma_pow32_positive(25);
        assert(pow32(26) == 32 * pow32(25));
        vstd::arithmetic::div_mod::lemma_div_is_ordered_by_denominator(v as int, two_pow_128(), pow32(26));
        assert(v as int / two_pow_128() == 0) by {
            vstd::arithmetic::div_mod::lemma_basic_div(v as int, two_pow_128());
        }
    } else {
        lemma_prefix_value(v, k - 1);
        let p = pow32((26 - k) as nat);
        lemma_pow32_positive((26 - k) as nat);
        assert(pow32((27 - k) as nat) == 32 * p);
        let q = v as int / p;
        vstd::arithmetic::div_mod::lemma_div_denominator(v as int, p, 32);
        assert(ulid_text_value(s, k - 1) == q / 32) by {
            assert(p * 32 == 32 * p) by (nonlinear_arith);
        }
        vstd::arithmetic::div_mod::lemma_div_pos_is_pos(v as int, p);
        vstd::arithmetic::div_mod::lemma_mod_pos_bound(q, 32);
        assert(s[k - 1] == crockford_digit(q % 32));
        lemma_digit_round_trip(q % 32);
        vstd::arithmetic::div_mod::lemma_fundamental_div_mod(q, 32);
        vstd::arithmetic::div_mod::lemma_div_nonincreasing(v as int, p);
        lemma_two_pow_128();
        vstd::arithmetic::div_mod::lemma_small_mod(q as nat, two_pow_128() as nat);
    }
}

/// The text of an id reads back as the same id: the canonical text is a
/// valid ULID and decodes to the value it was made from.
pub proof fn law_id_text_round_trips(v: u128)
    ensures
        ulid_text_valid(ulid_encode(v)),
        ulid_text_value(ulid_encode(v), 26) == v,
{
    let s = ulid_encode(v);
    assert forall|i: int| 0 <= i < 26 implies (#[trigger] crockford_value(s[i])) is Some by {
        lemma_pow32_positive((25 - i) as nat);
        vstd::arithmetic::div_mod::lemma_div_pos_is_pos(v as int, pow32((25 - i) as nat));
        vstd::arithmetic::div_mod::lemma_mod_pos_bound(v as int / pow32((25 - i) as nat), 32);
        lemma_digit_round_trip((v as int / pow32((25 - i) as nat)) % 32);
    }
    lemma_prefix_value(v, 26);
}

} // verus!
