//! Party identifiers: their format, how one is checked and how a new one is
//! made.

use regex::Regex;
use uuid::Uuid;
use vstd::prelude::*;
use vstd::string::*;

verus! {

/// Number of characters of a party identifier.
pub const PARTY_ID_LEN: usize = 4;

/// The pattern that a party identifier has to hold: four ASCII letters or
/// digits in a row.
pub const PARTY_ID_PATTERN: &'static str = "[a-zA-Z0-9]{4}";

/// Whether `c` is an ASCII letter or digit.
pub open spec fn is_id_char(c: char) -> bool {
    ('a' <= c && c <= 'z') || ('A' <= c && c <= 'Z') || ('0' <= c && c <= '9')
}

/// Whether `s` holds four ASCII letters or digits in a row, starting at `k`.
pub open spec fn id_run_at(s: Seq<char>, k: int) -> bool {
    &&& 0 <= k
    &&& k + 4 <= s.len()
    &&& forall|i: int| k <= i < k + 4 ==> is_id_char(#[trigger] s[i])
}

/// Whether `s` holds four ASCII letters or digits in a row anywhere.
pub open spec fn has_id_run(s: Seq<char>) -> bool {
    exists|k: int| id_run_at(s, k)
}

/// The format of a party identifier: exactly four characters, each an ASCII
/// letter or digit.
pub open spec fn is_party_id_format(s: Seq<char>) -> bool {
    &&& s.len() == 4
    &&& forall|i: int| 0 <= i < 4 ==> is_id_char(#[trigger] s[i])
}

/// Compiles `pattern` with `regex::Regex::new` and searches `haystack` with
/// `Regex::is_match`, which looks for a match anywhere in the haystack. The
/// contract is stated for the party-identifier pattern alone: a class of the
/// ASCII letters and digits, repeated four times, without anchors. For it the
/// search succeeds exactly when four such characters stand in a row.
#[verifier::external_body]
fn search_id_run(pattern: &str, haystack: &str) -> (found: bool)
    requires
        pattern@ == PARTY_ID_PATTERN@,
    ensures
        found == has_id_run(haystack@),
{
    match Regex::new(pattern) {
        Ok(re) => re.is_match(haystack),
        Err(_) => false,
    }
}

/// The bits of a 128-bit id that tell its version and its variant.
pub const UUID_FORM_MASK: u128 = 0xF000_C000_0000_0000_0000;

/// What those bits hold in a version-4 id of the usual variant.
pub const UUID_FORM_V4: u128 = 0x4000_8000_0000_0000_0000;

/// Whether `id` has the form of a version-4 UUID: the version is 4 and the
/// variant begins with the bits 1 and 0. The other 122 bits are free.
pub open spec fn is_version_4(id: u128) -> bool {
    id & UUID_FORM_MASK == UUID_FORM_V4
}

/// Draws a random version-4 identifier with `uuid::Uuid::new_v4` and hands
/// it back as the number that `Uuid::as_u128` reads from it. `new_v4` sets
/// the version and the variant in whatever the operating system's generator
/// gave, and `as_u128` reads the sixteen bytes back as they were written; so
/// the number has the form of a version-4 id. Nothing is stated of its
/// other bits.
#[verifier::external_body]
pub(crate) fn random_u128() -> (r: u128)
    ensures
        is_version_4(r),
{
    Uuid::new_v4().as_u128()
}

/// The error of a string that is no party identifier.
#[derive(Debug, Clone, Copy, PartialEq, Eq, Structural)]
pub struct InvalidPartyId;

/// The public handle of a party. Every value holds the identifier format,
/// and carries the code that its characters stand for.
#[derive(Debug)]
pub struct PartyId {
    raw: String,
    code: u32,
}

impl View for PartyId {
    type V = Seq<char>;

    closed spec fn view(&self) -> Seq<char> {
        self.raw@
    }
}

impl PartyId {
    #[verifier::type_invariant]
    spec fn well_formed(self) -> bool {
        &&& is_party_id_format(self.raw@)
        &&& self.code == code_of_id(self.raw@)
    }

    /// The code that the identifier stands for: the number that its four
    /// characters write to the base 62.
    pub fn code(&self) -> (code: u32)
        ensures
            code == code_of_id(self@),
            code < ID_SPACE,
            self@ == id_of_code(code as nat),
            is_party_id_format(self@),
    {
        proof {
            use_type_invariant(self);
            lemma_id_round_trip(self.raw@);
        }
        self.code
    }

    /// The identifier's characters.
    pub fn as_str(&self) -> (s: &str)
        ensures
            s@ == self@,
            is_party_id_format(self@),
    {
        proof {
            use_type_invariant(self);
        }
        self.raw.as_str()
    }

    /// Whether two identifiers have the same characters.
    pub fn same(&self, other: &PartyId) -> (r: bool)
        ensures
            r == (self@ == other@),
    {
        self.raw == other.raw
    }
}

impl Clone for PartyId {
    fn clone(&self) -> (r: Self)
        ensures
            r == *self,
    {
        proof {
            use_type_invariant(self);
        }
        PartyId { raw: self.raw.clone(), code: self.code }
    }
}

/// A run of four identifier characters in a string of four characters is
/// the whole string.
pub proof fn lemma_run_of_four(s: Seq<char>)
    requires
        s.len() == 4,
    ensures
        has_id_run(s) <==> is_party_id_format(s),
{
    if has_id_run(s) {
        let k = choose|k: int| id_run_at(s, k);
        assert(k == 0);
    }
    if is_party_id_format(s) {
        assert(id_run_at(s, 0));
    }
}

/// The value of the digit that the identifier character `c` writes.
pub fn digit_value(c: char) -> (d: u32)
    requires
        is_id_char(c),
    ensures
        d == digit_of(c),
        d < 62,
{
    if c >= '0' && c <= '9' {
        c as u32 - 48
    } else if c >= 'A' && c <= 'Z' {
        c as u32 - 55
    } else {
        c as u32 - 61
    }
}

/// Checks a string that a client sent against the identifier format.
pub fn validate_party_id(raw: &str) -> (r: Result<PartyId, InvalidPartyId>)
    ensures
        r is Ok <==> is_party_id_format(raw@),
        r matches Ok(id) ==> id@ == raw@,
{
    if raw.unicode_len() == PARTY_ID_LEN && search_id_run(PARTY_ID_PATTERN, raw) {
        proof {
            lemma_run_of_four(raw@);
        }
        let d3 = digit_value(raw.get_char(0));
        let d2 = digit_value(raw.get_char(1));
        let d1 = digit_value(raw.get_char(2));
        let d0 = digit_value(raw.get_char(3));
        let code: u32 = d3 * 238328 + d2 * 3844 + d1 * 62 + d0;
        Ok(PartyId { raw: raw.to_owned(), code })
    } else {
        proof {
            if raw@.len() == 4 {
                lemma_run_of_four(raw@);
            }
        }
        Err(InvalidPartyId)
    }
}

/// The characters that a new identifier is made of, in the order of their
/// digit values.
pub const ID_ALPHABET: &'static str =
    "0123456789ABCDEFGHIJKLMNOPQRSTUVWXYZabcdefghijklmnopqrstuvwxyz";

/// Number of identifiers that `id_of_code` can give: 62 to the fourth power.
pub const ID_SPACE: u32 = 14776336;

/// The identifier that stands for `code`: its four digits to the base 62,
/// the highest first, each written as the character of `ID_ALPHABET` at the
/// digit's value.
pub open spec fn id_of_code(code: nat) -> Seq<char> {
    seq![
        ID_ALPHABET@[(code / 238328) as int % 62],
        ID_ALPHABET@[(code / 3844) as int % 62],
        ID_ALPHABET@[(code / 62) as int % 62],
        ID_ALPHABET@[code as int % 62],
    ]
}

/// The value of the digit that the character `c` writes: 0 to 9 for the
/// digits, 10 to 35 for the capital letters, 36 to 61 for the small ones.
/// Any other character counts as 0.
pub open spec fn digit_of(c: char) -> nat {
    if '0' <= c && c <= '9' {
        (c as int - 48) as nat
    } else if 'A' <= c && c <= 'Z' {
        (c as int - 55) as nat
    } else if 'a' <= c && c <= 'z' {
        (c as int - 61) as nat
    } else {
        0
    }
}

/// The code that the four characters of `s` write to the base 62, the
/// highest digit first.
pub open spec fn code_of_id(s: Seq<char>) -> nat {
    digit_of(s[0]) * 238328 + digit_of(s[1]) * 3844 + digit_of(s[2]) * 62 + digit_of(s[3])
}

/// The alphabet has 62 characters, all of them ASCII letters or digits,
/// each at the place of the digit that it writes.
pub proof fn lemma_id_alphabet()
    ensures
        ID_ALPHABET@.len() == 62,
        forall|d: int| 0 <= d < 62 ==> is_id_char(#[trigger] ID_ALPHABET@[d]),
        forall|d: int| 0 <= d < 62 ==> digit_of(#[trigger] ID_ALPHABET@[d]) == d,
        is_ascii(ID_ALPHABET),
{
    reveal_strlit("0123456789ABCDEFGHIJKLMNOPQRSTUVWXYZabcdefghijklmnopqrstuvwxyz");
}

/// Every identifier character stands in the alphabet at the place of the
/// digit that it writes.
pub proof fn lemma_digit_in_alphabet(c: char)
    requires
        is_id_char(c),
    ensures
        digit_of(c) < 62,
        ID_ALPHABET@[digit_of(c) as int] == c,
{
    reveal_strlit("0123456789ABCDEFGHIJKLMNOPQRSTUVWXYZabcdefghijklmnopqrstuvwxyz");
}

/// A code below the number of identifiers is the code of the identifier
/// that stands for it.
pub proof fn lemma_code_round_trip(code: nat)
    requires
        code < ID_SPACE,
    ensures
        code_of_id(id_of_code(code)) == code,
{
    lemma_id_alphabet();
    let d3 = (code / 238328) as int % 62;
    let d2 = (code / 3844) as int % 62;
    let d1 = (code / 62) as int % 62;
    let d0 = code as int % 62;
    assert(digit_of(ID_ALPHABET@[d3]) == d3);
    assert(digit_of(ID_ALPHABET@[d2]) == d2);
    assert(digit_of(ID_ALPHABET@[d1]) == d1);
    assert(digit_of(ID_ALPHABET@[d0]) == d0);
}

/// Four digits to the base 62 are the digits of the number that they
/// write.
pub proof fn lemma_digits_of_code(d3: int, d2: int, d1: int, d0: int)
    requires
        0 <= d3 < 62,
        0 <= d2 < 62,
        0 <= d1 < 62,
        0 <= d0 < 62,
    ensures
        ({
            let code = d3 * 238328 + d2 * 3844 + d1 * 62 + d0;
            &&& 0 <= code < 14776336
            &&& (code / 238328) % 62 == d3
            &&& (code / 3844) % 62 == d2
            &&& (code / 62) % 62 == d1
            &&& code % 62 == d0
        }),
{
    let code = d3 * 238328 + d2 * 3844 + d1 * 62 + d0;
    let q1 = d3 * 3844 + d2 * 62 + d1;
    let q2 = d3 * 62 + d2;
    assert(code == 62 * q1 + d0);
    assert(code / 62 == q1);
    assert(code == 3844 * q2 + (d1 * 62 + d0));
    assert(code / 3844 == q2);
    assert(code == 238328 * d3 + (d2 * 3844 + d1 * 62 + d0));
    assert(code / 238328 == d3);
    assert(q1 == 62 * q2 + d1);
    assert(q2 == 62 * d3 + d2);
}

/// A string in the identifier format stands for its code.
pub proof fn lemma_id_round_trip(s: Seq<char>)
    requires
        is_party_id_format(s),
    ensures
        code_of_id(s) < ID_SPACE,
        id_of_code(code_of_id(s)) == s,
{
    lemma_digit_in_alphabet(s[0]);
    lemma_digit_in_alphabet(s[1]);
    lemma_digit_in_alphabet(s[2]);
    lemma_digit_in_alphabet(s[3]);
    let d3 = digit_of(s[0]) as int;
    let d2 = digit_of(s[1]) as int;
    let d1 = digit_of(s[2]) as int;
    let d0 = digit_of(s[3]) as int;
    lemma_digits_of_code(d3, d2, d1, d0);
    let code = code_of_id(s);
    assert(code == d3 * 238328 + d2 * 3844 + d1 * 62 + d0);
    let t = id_of_code(code);
    assert(t[0] == s[0]);
    assert(t[1] == s[1]);
    assert(t[2] == s[2]);
    assert(t[3] == s[3]);
    assert(t =~= s);
}

/// Every code stands for a string in the identifier format.
pub proof fn lemma_id_of_code_format(code: nat)
    ensures
        is_party_id_format(id_of_code(code)),
{
    lemma_id_alphabet();
}

impl PartyId {
    /// The identifier that stands for `code`, taken modulo `ID_SPACE`.
    pub fn from_code(code: u32) -> (id: PartyId)
        ensures
            id@ == id_of_code((code % ID_SPACE) as nat),
    {
        let c: usize = (code % ID_SPACE) as usize;
        let d3: usize = (c / 238328) % 62;
        let d2: usize = (c / 3844) % 62;
        let d1: usize = (c / 62) % 62;
        let d0: usize = c % 62;
        proof {
            lemma_id_alphabet();
        }
        let mut raw = String::new();
        raw.append(ID_ALPHABET.substring_ascii(d3, d3 + 1));
        raw.append(ID_ALPHABET.substring_ascii(d2, d2 + 1));
        raw.append(ID_ALPHABET.substring_ascii(d1, d1 + 1));
        raw.append(ID_ALPHABET.substring_ascii(d0, d0 + 1));
        proof {
            assert(raw@ =~= id_of_code((code % ID_SPACE) as nat));
            lemma_id_of_code_format((code % ID_SPACE) as nat);
            lemma_code_round_trip((code % ID_SPACE) as nat);
        }
        PartyId { raw, code: code % ID_SPACE }
    }

    /// The identifier that a random draw `seed` stands for.
    pub fn from_seed(seed: u128) -> (id: PartyId)
        ensures
            id@ == id_of_code((seed % (ID_SPACE as u128)) as nat),
    {
        let code: u32 = (seed % (ID_SPACE as u128)) as u32;
        PartyId::from_code(code)
    }
}

/// Makes a new identifier from a random draw. Whatever was drawn, the result
/// stands for a code and so holds the identifier format.
pub fn new_party_id() -> (id: PartyId)
    ensures
        exists|code: nat| code < ID_SPACE && id@ == id_of_code(code),
        is_party_id_format(id@),
{
    let seed = random_u128();
    let id = PartyId::from_seed(seed);
    proof {
        let code = (seed % (ID_SPACE as u128)) as nat;
        assert(code < ID_SPACE && id@ == id_of_code(code));
        lemma_id_of_code_format(code);
    }
    id
}

impl<'a> TryFrom<&'a str> for PartyId {
    type Error = InvalidPartyId;

    fn try_from(raw: &'a str) -> (r: Result<Self, InvalidPartyId>)
        ensures
            r is Ok <==> is_party_id_format(raw@),
            r matches Ok(id) ==> id@ == raw@,
    {
        validate_party_id(raw)
    }
}

/// What `try_from` gives is stated by its own contract. No function of
/// contracts gives the value: a contract cannot make an identifier, it can
/// only speak of the characters of one.
impl<'a> vstd::std_specs::convert::TryFromSpecImpl<&'a str> for PartyId {
    open spec fn obeys_try_from_spec() -> bool {
        false
    }

    open spec fn try_from_spec(v: &'a str) -> Result<Self, InvalidPartyId> {
        Err(InvalidPartyId)
    }
}

} // verus!
