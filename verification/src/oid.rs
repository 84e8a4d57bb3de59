//! Object IDs: the 20-byte SHA-1 names of Git objects, and their hexadecimal
//! text form.

use vstd::prelude::*;

verus! {

/// Whether `c` is a hexadecimal digit (either case).
pub open spec fn is_hex_digit(c: char) -> bool {
    ('0' <= c && c <= '9') || ('a' <= c && c <= 'f') || ('A' <= c && c <= 'F')
}

/// The value of a hexadecimal digit.
pub open spec fn hex_value(c: char) -> int {
    if '0' <= c && c <= '9' {
        c as int - '0' as int
    } else if 'a' <= c && c <= 'f' {
        c as int - 'a' as int + 10
    } else {
        c as int - 'A' as int + 10
    }
}

/// The lowercase hexadecimal digit for a value below 16.
pub open spec fn hex_char(v: int) -> char {
    if v < 10 {
        (v + '0' as int) as char
    } else {
        (v - 10 + 'a' as int) as char
    }
}

/// Text that names an object ID: one to forty hexadecimal digits.
pub open spec fn is_oid_text(s: Seq<char>) -> bool {
    &&& 1 <= s.len() <= 40
    &&& forall|i: int| 0 <= i < s.len() ==> is_hex_digit(#[trigger] s[i])
}

/// The value of the `p`-th digit of an abbreviated object ID, where the
/// missing trailing digits count as zero.
pub open spec fn oid_nibble(s: Seq<char>, p: int) -> int {
    if 0 <= p < s.len() {
        hex_value(s[p])
    } else {
        0
    }
}

/// The bytes named by an (abbreviated) hexadecimal object ID: each byte is
/// two digits, high digit first, padded with zeros to forty digits.
pub open spec fn oid_bytes_of_text(s: Seq<char>) -> Seq<u8> {
    Seq::new(20, |i: int| (oid_nibble(s, 2 * i) * 16 + oid_nibble(s, 2 * i + 1)) as u8)
}

/// The forty lowercase hexadecimal digits of an object ID.
pub open spec fn oid_hex(b: Seq<u8>) -> Seq<char> {
    Seq::new(40, |p: int| if p % 2 == 0 { hex_char(b[p / 2] as int / 16) } else { hex_char(b[p / 2] as int % 16) })
}

/// Parse hexadecimal text with `git2::Oid::from_str`.
///
/// The contract restates libgit2's `git_oid_fromstrn`: the text is accepted
/// exactly when it holds one to forty hexadecimal digits, and the resulting
/// bytes are the digits read in pairs, padded with zeros.
#[verifier::external_body]
fn git_oid_from_str(s: &str) -> (r: Option<[u8; 20]>)
    ensures
        r is Some <==> is_oid_text(s@),
        r matches Some(b) ==> b@ == oid_bytes_of_text(s@),
{
    match git2::Oid::from_str(s) {
        Ok(oid) => {
            let mut bytes = [0u8; 20];
            bytes.copy_from_slice(oid.as_bytes());
            Some(bytes)
        },
        Err(_) => None,
    }
}

/// Render bytes with `git2::Oid`'s `Display`, which writes the forty
/// lowercase hexadecimal digits of the object ID (libgit2's
/// `git_oid_tostr`).
#[verifier::external_body]
fn git_oid_to_string(bytes: &[u8; 20]) -> (r: String)
    ensures
        r@ == oid_hex(bytes@),
{
    git2::Oid::from_bytes(bytes).unwrap().to_string()
}

/// The name of a Git object: twenty raw bytes. The all-zero name stands for
/// "no object".
#[derive(Clone, Copy, Debug, Hash)]
pub struct Oid {
    pub bytes: [u8; 20],
}

impl View for Oid {
    type V = Seq<u8>;

    open spec fn view(&self) -> Seq<u8> {
        self.bytes@
    }
}

impl PartialEq for Oid {
    fn eq(&self, other: &Oid) -> (r: bool) {
        let mut i: usize = 0;
        while i < 20
            invariant
                0 <= i <= 20,
                forall|j: int| 0 <= j < i ==> self.bytes@[j] == other.bytes@[j],
            decreases 20 - i,
        {
            if self.bytes[i] != other.bytes[i] {
                return false;
            }
            i = i + 1;
        }
        proof {
            assert(self.bytes@ =~= other.bytes@);
        }
        true
    }
}

impl vstd::std_specs::cmp::PartialEqSpecImpl for Oid {
    open spec fn obeys_eq_spec() -> bool {
        true
    }

    open spec fn eq_spec(&self, other: &Oid) -> bool {
        self.bytes@ == other.bytes@
    }
}

impl Eq for Oid {}

/// Two object IDs are the same value exactly when their bytes agree.
pub proof fn lemma_oid_ext_equal(a: Oid, b: Oid)
    requires
        a@ == b@,
    ensures
        a == b,
{
    assert(a.bytes =~= b.bytes);
}

impl Oid {
    /// The all-zero object ID.
    pub fn zero() -> (r: Oid)
        ensures
            forall|i: int| 0 <= i < 20 ==> r@[i] == 0,
    {
        Oid { bytes: [0u8; 20] }
    }

    /// Whether every byte of the ID is zero.
    pub open spec fn spec_is_zero(&self) -> bool {
        forall|i: int| 0 <= i < 20 ==> self@[i] == 0
    }

    /// Whether every byte of the ID is zero.
    pub fn is_zero(&self) -> (r: bool)
        ensures
            r == self.spec_is_zero(),
    {
        let mut i: usize = 0;
        while i < 20
            invariant
                0 <= i <= 20,
                forall|j: int| 0 <= j < i ==> self.bytes@[j] == 0,
            decreases 20 - i,
        {
            if self.bytes[i] != 0 {
                assert(self@[i as int] != 0);
                return false;
            }
            i = i + 1;
        }
        true
    }

    /// Parse an object ID from (possibly abbreviated) hexadecimal text, as
    /// `git2::Oid::from_str` does. Returns `None` for text that is empty,
    /// longer than forty characters, or not hexadecimal.
    pub fn from_str(s: &str) -> (r: Option<Oid>)
        ensures
            r is Some <==> is_oid_text(s@),
            r matches Some(oid) ==> oid@ == oid_bytes_of_text(s@),
    {
        match git_oid_from_str(s) {
            Some(bytes) => Some(Oid { bytes }),
            None => None,
        }
    }

    /// The forty lowercase hexadecimal digits of this ID.
    pub fn to_hex(&self) -> (r: String)
        ensures
            r@ == oid_hex(self@),
    {
        git_oid_to_string(&self.bytes)
    }

    /// Byte-wise comparison: whether `self` sorts strictly before `other`.
    pub fn lt(&self, other: &Oid) -> (r: bool)
        ensures
            r == oid_lt(self@, other@),
    {
        let mut i: usize = 0;
        while i < 20
            invariant
                0 <= i <= 20,
                self@.len() == 20,
                other@.len() == 20,
                forall|j: int| 0 <= j < i ==> self@[j] == other@[j],
                oid_lt(self@, other@) == oid_lt_from(self@, other@, i as int),
            decreases 20 - i,
        {
            if self.bytes[i] != other.bytes[i] {
                return self.bytes[i] < other.bytes[i];
            }
            i = i + 1;
        }
        false
    }
}

/// Lexicographic order on byte strings of equal length, from position `i`.
pub open spec fn oid_lt_from(a: Seq<u8>, b: Seq<u8>, i: int) -> bool
    decreases 20 - i,
{
    if i >= 20 || i < 0 {
        false
    } else if a[i] != b[i] {
        a[i] < b[i]
    } else {
        oid_lt_from(a, b, i + 1)
    }
}

/// Lexicographic order on the bytes of two object IDs.
pub open spec fn oid_lt(a: Seq<u8>, b: Seq<u8>) -> bool {
    oid_lt_from(a, b, 0)
}


/// The order on object IDs of twenty bytes is strict, total and
/// transitive, from any position on.
proof fn lemma_oid_lt_from(a: Seq<u8>, b: Seq<u8>, c: Seq<u8>, i: int)
    requires
        a.len() == 20,
        b.len() == 20,
        c.len() == 20,
        0 <= i <= 20,
    ensures
        !oid_lt_from(a, a, i),
        !(oid_lt_from(a, b, i) && oid_lt_from(b, a, i)),
        a.subrange(i, 20) != b.subrange(i, 20) ==> oid_lt_from(a, b, i) || oid_lt_from(b, a, i),
        oid_lt_from(a, b, i) && oid_lt_from(b, c, i) ==> oid_lt_from(a, c, i),
    decreases 20 - i,
{
    if i < 20 {
        lemma_oid_lt_from(a, b, c, i + 1);
        if a.subrange(i, 20) != b.subrange(i, 20) && a[i] == b[i] {
            assert(a.subrange(i + 1, 20) != b.subrange(i + 1, 20)) by {
                if a.subrange(i + 1, 20) == b.subrange(i + 1, 20) {
                    assert(a.subrange(i, 20) =~= seq![a[i]] + a.subrange(i + 1, 20));
                    assert(b.subrange(i, 20) =~= seq![b[i]] + b.subrange(i + 1, 20));
                }
            }
        }
    } else {
        assert(a.subrange(i, 20) =~= b.subrange(i, 20));
    }
}

/// The order on object IDs is strict, total and transitive.
pub proof fn lemma_oid_lt_order(a: Seq<u8>, b: Seq<u8>, c: Seq<u8>)
    requires
        a.len() == 20,
        b.len() == 20,
        c.len() == 20,
    ensures
        !oid_lt(a, a),
        !(oid_lt(a, b) && oid_lt(b, a)),
        a != b ==> oid_lt(a, b) || oid_lt(b, a),
        oid_lt(a, b) && oid_lt(b, c) ==> oid_lt(a, c),
{
    lemma_oid_lt_from(a, b, c, 0);
    assert(a.subrange(0, 20) =~= a);
    assert(b.subrange(0, 20) =~= b);
}

proof fn lemma_hex_digit(v: int)
    requires
        0 <= v < 16,
    ensures
        is_hex_digit(hex_char(v)),
        hex_value(hex_char(v)) == v,
{
    if v < 10 {
        assert((v + '0' as int) as char as int == v + '0' as int);
    } else {
        assert((v - 10 + 'a' as int) as char as int == v - 10 + 'a' as int);
    }
}

/// The hexadecimal text of an object ID is accepted by the parser, and
/// parses back to the same bytes.
pub proof fn lemma_hex_round_trip(b: Seq<u8>)
    requires
        b.len() == 20,
    ensures
        is_oid_text(oid_hex(b)),
        oid_bytes_of_text(oid_hex(b)) == b,
{
    let t = oid_hex(b);
    assert forall|i: int| 0 <= i < t.len() implies is_hex_digit(#[trigger] t[i]) by {
        if i % 2 == 0 {
            lemma_hex_digit(b[i / 2] as int / 16);
        } else {
            lemma_hex_digit(b[i / 2] as int % 16);
        }
    }
    assert forall|i: int| 0 <= i < 20 implies #[trigger] oid_bytes_of_text(t)[i] == b[i] by {
        assert((2 * i) / 2 == i);
        assert((2 * i + 1) / 2 == i);
        assert((2 * i) % 2 == 0);
        assert((2 * i + 1) % 2 == 1);
        lemma_hex_digit(b[i] as int / 16);
        lemma_hex_digit(b[i] as int % 16);
        assert(oid_nibble(t, 2 * i) == b[i] as int / 16);
        assert(oid_nibble(t, 2 * i + 1) == b[i] as int % 16);
    }
    assert(oid_bytes_of_text(t) =~= b);
}

} // verus!
