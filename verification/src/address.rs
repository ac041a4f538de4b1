use vstd::prelude::*;
use vstd::string::StringSliceAdditionalSpecFns;

use crate::errors::NodeError;

verus! {

/// The byte value of `:`, the separator between host and port.
pub const COLON: u8 = 58;

/// The byte value of `0`; decimal digits are `0` through `9`.
pub const DIGIT_ZERO: u8 = 48;

/// The largest port number a sixteen-bit port field can carry.
pub const MAX_PORT: u16 = 65535;

/// A resolved endpoint: the host text and the numeric port, the two parts of
/// the textual `host:port` form the node binds.
pub struct Address {
    /// The bytes of the host part, everything before the last `:`.
    pub host: Vec<u8>,
    /// The numeric value of the port part.
    pub port: u16,
}

/// `b` is a decimal digit.
pub open spec fn is_digit(b: u8) -> bool {
    DIGIT_ZERO <= b <= DIGIT_ZERO + 9
}

/// Every byte of `s` is a decimal digit.
pub open spec fn all_digits(s: Seq<u8>) -> bool {
    forall|j: int| 0 <= j < s.len() ==> is_digit(#[trigger] s[j])
}

/// The value of `s` read as a decimal numeral (most significant digit first).
pub open spec fn dec_val(s: Seq<u8>) -> nat
    decreases s.len(),
{
    if s.len() == 0 {
        0
    } else {
        dec_val(s.drop_last()) * 10 + (s.last() - DIGIT_ZERO) as nat
    }
}

/// Position `i` holds the last `:` of `s`.
pub open spec fn last_colon_at(s: Seq<u8>, i: int) -> bool {
    &&& 0 <= i < s.len()
    &&& s[i] == COLON
    &&& forall|j: int| i < j < s.len() ==> s[j] != COLON
}

/// Splitting `s` at position `i` yields a well-formed address: a non-empty
/// host before a `:` and a non-empty, all-digit port that fits in sixteen
/// bits after it.
pub open spec fn valid_split_at(s: Seq<u8>, i: int) -> bool {
    &&& 0 < i
    &&& i + 1 < s.len()
    &&& s[i] == COLON
    &&& all_digits(s.subrange(i + 1, s.len() as int))
    &&& dec_val(s.subrange(i + 1, s.len() as int)) <= MAX_PORT
}

/// `s` is a parseable `host:port` address.
pub open spec fn valid_address(s: Seq<u8>) -> bool {
    exists|i: int| valid_split_at(s, i)
}

/// `a` is the parse of `s`: the host is everything before the last `:` and
/// the port is the decimal value of everything after it.
pub open spec fn parses_to(s: Seq<u8>, a: Address) -> bool {
    exists|i: int|
        {
            &&& #[trigger] valid_split_at(s, i)
            &&& a.host@ == s.subrange(0, i)
            &&& a.port as nat == dec_val(s.subrange(i + 1, s.len() as int))
        }
}

/// The host part of a valid address: everything before the last colon.
pub open spec fn addr_host(s: Seq<u8>) -> Seq<u8>
    recommends
        valid_address(s),
{
    let i = choose|i: int| valid_split_at(s, i);
    s.subrange(0, i)
}

/// The port of a valid address: the decimal value after the last colon.
pub open spec fn addr_port(s: Seq<u8>) -> nat
    recommends
        valid_address(s),
{
    let i = choose|i: int| valid_split_at(s, i);
    dec_val(s.subrange(i + 1, s.len() as int))
}

/// The parse of a valid address is exactly its host and port parts: what
/// `parses_to` relates is `addr_host` and `addr_port`.
pub proof fn lemma_parse_parts(s: Seq<u8>, a: Address)
    requires
        parses_to(s, a),
    ensures
        valid_address(s),
        a.host@ == addr_host(s),
        a.port as nat == addr_port(s),
{
    let i = choose|i: int|
        {
            &&& #[trigger] valid_split_at(s, i)
            &&& a.host@ == s.subrange(0, i)
            &&& a.port as nat == dec_val(s.subrange(i + 1, s.len() as int))
        };
    let k = choose|k: int| valid_split_at(s, k);
    lemma_split_unique(s, i, k);
}

/// A valid split sits at the last colon: the port part is all digits, and a
/// digit is never a colon, so no colon can follow the split.
pub proof fn lemma_valid_split_is_last_colon(s: Seq<u8>, i: int)
    requires
        valid_split_at(s, i),
    ensures
        last_colon_at(s, i),
{
    assert forall|j: int| i < j < s.len() implies s[j] != COLON by {
        assert(s.subrange(i + 1, s.len() as int)[j - i - 1] == s[j]);
    }
}

/// Two valid splits of the same string are the same split: the parse of an
/// address is unambiguous.
pub proof fn lemma_split_unique(s: Seq<u8>, i: int, k: int)
    requires
        valid_split_at(s, i),
        valid_split_at(s, k),
    ensures
        i == k,
{
    lemma_valid_split_is_last_colon(s, i);
    lemma_valid_split_is_last_colon(s, k);
}

/// Appending a digit multiplies the numeral's value by ten and adds the
/// digit's value.
proof fn lemma_dec_val_push(s: Seq<u8>, b: u8)
    ensures
        dec_val(s.push(b)) == dec_val(s) * 10 + (b - DIGIT_ZERO) as nat,
{
    assert(s.push(b).drop_last() =~= s);
    assert(s.push(b).last() == b);
}

/// A decimal numeral is worth at least its prefix: once a prefix exceeds the
/// port maximum, the whole numeral does too.
proof fn lemma_dec_val_prefix_le(s: Seq<u8>, m: int)
    requires
        0 <= m <= s.len(),
    ensures
        dec_val(s.subrange(0, m)) <= dec_val(s),
    decreases s.len() - m,
{
    if m < s.len() {
        let p = s.subrange(0, m);
        let q = s.subrange(0, m + 1);
        assert(q =~= p.push(s[m]));
        lemma_dec_val_push(p, s[m]);
        assert(dec_val(p) * 10 >= dec_val(p) * 1) by (nonlinear_arith);
        lemma_dec_val_prefix_le(s, m + 1);
        assert(s.subrange(0, s.len() as int) =~= s);
    } else {
        assert(s.subrange(0, m) =~= s);
    }
}

impl Address {
    /// The two addresses name the same endpoint: same host bytes, same port.
    pub open spec fn same_endpoint(&self, other: &Address) -> bool {
        self.host@ == other.host@ && self.port == other.port
    }

    /// Compare two addresses for the same endpoint.
    pub fn endpoint_eq(&self, other: &Address) -> (r: bool)
        ensures
            r == self.same_endpoint(other),
    {
        if self.port != other.port {
            return false;
        }
        if self.host.len() != other.host.len() {
            proof {
                assert(self.host@.len() != other.host@.len());
            }
            return false;
        }
        let n = self.host.len();
        let mut j: usize = 0;
        while j < n
            invariant
                n == self.host@.len(),
                n == other.host@.len(),
                j <= n,
                forall|k: int| 0 <= k < j ==> self.host@[k] == other.host@[k],
            decreases n - j,
        {
            if self.host[j] != other.host[j] {
                return false;
            }
            j = j + 1;
        }
        proof {
            assert(self.host@ =~= other.host@);
        }
        true
    }
}

/// Parse a textual `host:port` address: the host is everything before the
/// last `:`, the port the decimal numeral after it. Returns `AddressError`
/// exactly when the text is not of that form or the port does not fit in
/// sixteen bits.
pub fn parse_address(s: &str) -> (r: Result<Address, NodeError>)
    ensures
        r is Ok <==> valid_address(s.spec_bytes()),
        r matches Ok(a) ==> parses_to(s.spec_bytes(), a),
        r is Err ==> r == Err::<Address, NodeError>(NodeError::AddressError),
{
    let bytes: &[u8] = s.as_bytes();
    parse_address_bytes(bytes)
}

/// Parse an address given as raw bytes; `parse_address` on the textual form
/// and the foreign-boundary shim both come through here.
pub fn parse_address_bytes(bytes: &[u8]) -> (r: Result<Address, NodeError>)
    ensures
        r is Ok <==> valid_address(bytes@),
        r matches Ok(a) ==> parses_to(bytes@, a),
        r is Err ==> r == Err::<Address, NodeError>(NodeError::AddressError),
{
    let n = bytes.len();
    // Find the last colon.
    let mut sep_found = false;
    let mut sep: usize = 0;
    let mut t: usize = 0;
    while t < n
        invariant
            t <= n,
            n == bytes@.len(),
            sep_found ==> sep < t && bytes@[sep as int] == COLON && (forall|k: int|
                sep < k < t ==> bytes@[k] != COLON),
            !sep_found ==> forall|k: int| 0 <= k < t ==> bytes@[k] != COLON,
        decreases n - t,
    {
        if bytes[t] == COLON {
            sep = t;
            sep_found = true;
        }
        t = t + 1;
    }
    if !sep_found {
        // No colon at all: no split is valid.
        proof {
            assert forall|i: int| !valid_split_at(bytes@, i) by {
                if 0 <= i < n {
                    assert(bytes@[i] != COLON);
                }
            }
        }
        return Err(NodeError::AddressError);
    }
    proof {
        assert(last_colon_at(bytes@, sep as int));
        assert forall|i: int| i != sep implies !valid_split_at(bytes@, i) by {
            if valid_split_at(bytes@, i) {
                lemma_valid_split_is_last_colon(bytes@, i);
                if i < sep {
                    assert(bytes@[sep as int] != COLON);
                } else {
                    assert(bytes@[i] != COLON);
                }
            }
        }
    }
    if sep == 0 {
        // Empty host.
        return Err(NodeError::AddressError);
    }
    if sep + 1 >= n {
        // Empty port.
        return Err(NodeError::AddressError);
    }
    // Read the port digits.
    let ghost port_bytes = bytes@.subrange(sep + 1 as int, n as int);
    let mut acc: u32 = 0;
    let mut k: usize = sep + 1;
    while k < n
        invariant
            sep + 1 <= k <= n,
            n == bytes@.len(),
            0 < sep,
            bytes@[sep as int] == COLON,
            forall|i: int| i != sep ==> !valid_split_at(bytes@, i),
            port_bytes == bytes@.subrange(sep + 1 as int, n as int),
            all_digits(bytes@.subrange(sep + 1 as int, k as int)),
            acc as nat == dec_val(bytes@.subrange(sep + 1 as int, k as int)),
            acc <= MAX_PORT,
        decreases n - k,
    {
        let b = bytes[k];
        let ghost seen = bytes@.subrange(sep + 1 as int, k as int);
        if b < DIGIT_ZERO || b > DIGIT_ZERO + 9 {
            // A non-digit in the port: no valid split exists.
            proof {
                assert(!valid_split_at(bytes@, sep as int)) by {
                    if valid_split_at(bytes@, sep as int) {
                        assert(port_bytes[k - sep - 1] == bytes@[k as int]);
                        assert(is_digit(port_bytes[k - sep - 1]));
                    }
                }
                assert forall|i: int| !valid_split_at(bytes@, i) by {
                    if i != sep {
                        assert(!valid_split_at(bytes@, i));
                    }
                }
                assert(!valid_address(bytes@));
            }
            return Err(NodeError::AddressError);
        }
        proof {
            assert(bytes@.subrange(sep + 1 as int, k + 1 as int) =~= seen.push(bytes@[k as int]));
            lemma_dec_val_push(seen, bytes@[k as int]);
        }
        let next = acc * 10 + (b - DIGIT_ZERO) as u32;
        if next > MAX_PORT as u32 {
            // The port overflows sixteen bits; the full numeral is worth at
            // least this prefix, so no valid split exists.
            proof {
                assert(!valid_split_at(bytes@, sep as int)) by {
                    if valid_split_at(bytes@, sep as int) {
                        lemma_dec_val_prefix_le(port_bytes, k + 1 - (sep + 1));
                        assert(port_bytes.subrange(0, k + 1 - (sep + 1)) =~= bytes@.subrange(
                            sep + 1 as int,
                            k + 1 as int,
                        ));
                    }
                }
                assert forall|i: int| !valid_split_at(bytes@, i) by {
                    if i != sep {
                        assert(!valid_split_at(bytes@, i));
                    }
                }
                assert(!valid_address(bytes@));
            }
            return Err(NodeError::AddressError);
        }
        acc = next;
        k = k + 1;
    }
    proof {
        assert(bytes@.subrange(sep + 1 as int, n as int) =~= port_bytes);
        assert(valid_split_at(bytes@, sep as int));
    }
    // Copy the host out.
    let mut host: Vec<u8> = Vec::new();
    let mut h: usize = 0;
    while h < sep
        invariant
            h <= sep,
            sep < n,
            n == bytes@.len(),
            valid_split_at(bytes@, sep as int),
            host@ == bytes@.subrange(0, h as int),
        decreases sep - h,
    {
        let ghost before = host@;
        host.push(bytes[h]);
        proof {
            assert(before.push(bytes@[h as int]) =~= bytes@.subrange(0, h + 1 as int));
        }
        h = h + 1;
    }
    let addr = Address { host, port: acc as u16 };
    proof {
        assert(valid_split_at(bytes@, sep as int) && addr.host@ == bytes@.subrange(0, sep as int)
            && addr.port as nat == dec_val(bytes@.subrange(sep + 1 as int, bytes@.len() as int)));
    }
    Ok(addr)
}

} // verus!
