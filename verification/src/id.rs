//! Deterministic 128-bit symbol identifiers.
use vstd::prelude::*;
use vstd::string::StringSliceAdditionalSpecFns;
use crate::error::LoomError;

verus! {

/// A 128-bit identifier uniquely and deterministically naming a symbol.
#[derive(Clone, Copy, Eq, Hash, PartialOrd, Ord, Debug)]
pub struct SymbolId(pub [u8; 16]);

impl PartialEq for SymbolId {
    fn eq(&self, other: &Self) -> (res: bool) {
        let mut i: usize = 0;
        while i < 16
            invariant
                0 <= i <= 16,
                forall|j: int| 0 <= j < i ==> self.0@[j] == other.0@[j],
            decreases 16 - i,
        {
            if self.0[i] != other.0[i] {
                proof {
                    if *self == *other {
                        assert(self.0@[i as int] == other.0@[i as int]);
                    }
                }
                return false;
            }
            i = i + 1;
        }
        assert(self.0@ =~= other.0@);
        assert(self.0 == other.0);
        true
    }
}

impl vstd::std_specs::cmp::PartialEqSpecImpl for SymbolId {
    open spec fn obeys_eq_spec() -> bool {
        true
    }

    open spec fn eq_spec(&self, other: &Self) -> bool {
        *self == *other
    }
}

/// The 128-bit integer whose little-endian bytes are `b`.
pub open spec fn bytes_key(b: Seq<u8>) -> u128 {
    (b[0] as u128) | ((b[1] as u128) << 8u128) | ((b[2] as u128) << 16u128) | ((b[3] as u128) << 24u128)
    | ((b[4] as u128) << 32u128) | ((b[5] as u128) << 40u128) | ((b[6] as u128) << 48u128) | ((b[7] as u128) << 56u128)
    | ((b[8] as u128) << 64u128) | ((b[9] as u128) << 72u128) | ((b[10] as u128) << 80u128) | ((b[11] as u128) << 88u128)
    | ((b[12] as u128) << 96u128) | ((b[13] as u128) << 104u128) | ((b[14] as u128) << 112u128) | ((b[15] as u128) << 120u128)
}

impl SymbolId {
    /// The 128-bit integer that keys this identifier in lookup tables.
    pub open spec fn spec_key(self) -> u128 {
        bytes_key(self.0@)
    }

    /// Constructs a `SymbolId` from raw 16 bytes.
    pub fn from_bytes(bytes: [u8; 16]) -> (id: Self)
        ensures
            id.0 == bytes,
    {
        SymbolId(bytes)
    }

    /// Returns the raw 16 bytes.
    pub fn as_bytes(&self) -> (bytes: &[u8; 16])
        ensures
            *bytes == self.0,
    {
        &self.0
    }

    /// Returns the inner 16-byte array.
    pub fn into_bytes(self) -> (bytes: [u8; 16])
        ensures
            bytes == self.0,
    {
        self.0
    }

    /// The little-endian 128-bit value of the identifier's bytes.
    pub fn key(&self) -> (k: u128)
        ensures
            k == self.spec_key(),
    {
        let b = &self.0;
        (b[0] as u128) | ((b[1] as u128) << 8u128) | ((b[2] as u128) << 16u128) | ((b[3] as u128) << 24u128)
        | ((b[4] as u128) << 32u128) | ((b[5] as u128) << 40u128) | ((b[6] as u128) << 48u128) | ((b[7] as u128) << 56u128)
        | ((b[8] as u128) << 64u128) | ((b[9] as u128) << 72u128) | ((b[10] as u128) << 80u128) | ((b[11] as u128) << 88u128)
        | ((b[12] as u128) << 96u128) | ((b[13] as u128) << 104u128) | ((b[14] as u128) << 112u128) | ((b[15] as u128) << 120u128)
    }
}

/// Each byte of a 16-byte sequence can be read back from its key.
proof fn lemma_key_bytes(b0: u8, b1: u8, b2: u8, b3: u8, b4: u8, b5: u8, b6: u8, b7: u8,
    b8: u8, b9: u8, b10: u8, b11: u8, b12: u8, b13: u8, b14: u8, b15: u8, k: u128)
    by (bit_vector)
    requires
        k == (b0 as u128) | ((b1 as u128) << 8u128) | ((b2 as u128) << 16u128) | ((b3 as u128) << 24u128)
        | ((b4 as u128) << 32u128) | ((b5 as u128) << 40u128) | ((b6 as u128) << 48u128) | ((b7 as u128) << 56u128)
        | ((b8 as u128) << 64u128) | ((b9 as u128) << 72u128) | ((b10 as u128) << 80u128) | ((b11 as u128) << 88u128)
        | ((b12 as u128) << 96u128) | ((b13 as u128) << 104u128) | ((b14 as u128) << 112u128) | ((b15 as u128) << 120u128),
    ensures
        b0 == (k & 0xff) as u8, b1 == ((k >> 8u128) & 0xff) as u8, b2 == ((k >> 16u128) & 0xff) as u8,
        b3 == ((k >> 24u128) & 0xff) as u8, b4 == ((k >> 32u128) & 0xff) as u8, b5 == ((k >> 40u128) & 0xff) as u8,
        b6 == ((k >> 48u128) & 0xff) as u8, b7 == ((k >> 56u128) & 0xff) as u8, b8 == ((k >> 64u128) & 0xff) as u8,
        b9 == ((k >> 72u128) & 0xff) as u8, b10 == ((k >> 80u128) & 0xff) as u8, b11 == ((k >> 88u128) & 0xff) as u8,
        b12 == ((k >> 96u128) & 0xff) as u8, b13 == ((k >> 104u128) & 0xff) as u8, b14 == ((k >> 112u128) & 0xff) as u8,
        b15 == ((k >> 120u128) & 0xff) as u8,
{
}

/// Distinct identifiers have distinct keys.
pub proof fn lemma_key_injective(a: SymbolId, b: SymbolId)
    ensures
        a.spec_key() == b.spec_key() ==> a == b,
{
    if a.spec_key() == b.spec_key() {
        let x = a.0@;
        let y = b.0@;
        lemma_key_bytes(x[0], x[1], x[2], x[3], x[4], x[5], x[6], x[7], x[8], x[9], x[10], x[11], x[12], x[13], x[14], x[15], a.spec_key());
        lemma_key_bytes(y[0], y[1], y[2], y[3], y[4], y[5], y[6], y[7], y[8], y[9], y[10], y[11], y[12], y[13], y[14], y[15], b.spec_key());
        assert(x =~= y);
        assert(a.0 == b.0);
    }
}

} // verus!

verus! {

/// The lowercase hexadecimal digit for `v` in `0..16`.
pub open spec fn hex_digit(v: nat) -> char {
    if v < 10 {
        (('0' as int) + v) as char
    } else {
        (('a' as int) + v - 10) as char
    }
}

/// Two lowercase hexadecimal digits per byte, most significant digit first.
pub open spec fn hex_lower(bs: Seq<u8>) -> Seq<char>
    decreases bs.len(),
{
    if bs.len() == 0 {
        Seq::empty()
    } else {
        hex_lower(bs.drop_last()) + seq![hex_digit((bs.last() / 16) as nat), hex_digit((bs.last() % 16) as nat)]
    }
}

/// The value of an ASCII hexadecimal digit of either case.
pub open spec fn hex_value(c: u8) -> Option<nat> {
    if 0x30 <= c <= 0x39 {
        Some((c - 0x30) as nat)
    } else if 0x61 <= c <= 0x66 {
        Some((c - 0x61 + 10) as nat)
    } else if 0x41 <= c <= 0x46 {
        Some((c - 0x41 + 10) as nat)
    } else {
        None
    }
}

/// `bs` is exactly 32 hexadecimal digits.
pub open spec fn is_hex_16(bs: Seq<u8>) -> bool {
    bs.len() == 32 && forall|i: int| 0 <= i < 32 ==> (#[trigger] hex_value(bs[i])) is Some
}

/// The bytes spelled by pairs of hexadecimal digits.
pub open spec fn hex_decoded(bs: Seq<u8>) -> Seq<u8> {
    Seq::new(bs.len() / 2, |i: int| (hex_value(bs[2 * i])->0 * 16 + hex_value(bs[2 * i + 1])->0) as u8)
}

#[verifier::external_type_specification]
#[verifier::external_body]
pub struct ExFromHexError(hex::FromHexError);

/// Calls `hex::encode`: two lowercase hexadecimal digits per byte.
#[verifier::external_body]
fn hex_encode(bytes: &[u8; 16]) -> (s: String)
    ensures
        s@ == hex_lower(bytes@),
{
    hex::encode(bytes)
}

/// Calls `hex::decode_to_slice` into 16 bytes. It succeeds exactly when the text's UTF-8
/// bytes are 32 hexadecimal digits of either case, and then yields the bytes they spell.
#[verifier::external_body]
fn hex_decode_16(text: &str) -> (r: Result<[u8; 16], hex::FromHexError>)
    ensures
        r is Ok <==> is_hex_16(text.spec_bytes()),
        r matches Ok(b) ==> b@ == hex_decoded(text.spec_bytes()),
{
    let mut bytes = [0u8; 16];
    hex::decode_to_slice(text, &mut bytes).map(|()| bytes)
}

impl SymbolId {
    /// The 32-character lowercase hexadecimal form.
    pub fn to_hex(&self) -> (s: String)
        ensures
            s@ == hex_lower(self.0@),
    {
        hex_encode(&self.0)
    }

    /// Parses the 32-digit hexadecimal form (digits of either case).
    ///
    /// Fails with `InvalidSymbolIdHex` carrying the text when it is not 32 hexadecimal digits.
    pub fn from_hex(hex_str: &str) -> (r: Result<SymbolId, LoomError>)
        ensures
            r is Ok <==> is_hex_16(hex_str.spec_bytes()),
            r matches Ok(id) ==> id.0@ == hex_decoded(hex_str.spec_bytes()),
            r matches Err(e) ==> e matches LoomError::InvalidSymbolIdHex(t) && t@ == hex_str@,
    {
        match hex_decode_16(hex_str) {
            Ok(bytes) => Ok(SymbolId(bytes)),
            Err(_) => Err(LoomError::InvalidSymbolIdHex(hex_str.to_owned())),
        }
    }
}

} // verus!

verus! {

/// The hexadecimal form has two digits per byte, high digit first.
pub proof fn lemma_hex_lower_shape(bs: Seq<u8>)
    ensures
        hex_lower(bs).len() == 2 * bs.len(),
        forall|i: int| 0 <= i < bs.len() ==> hex_lower(bs)[2 * i] == hex_digit((bs[i] / 16) as nat)
            && hex_lower(bs)[2 * i + 1] == hex_digit((bs[i] % 16) as nat),
    decreases bs.len(),
{
    if bs.len() > 0 {
        let init = bs.drop_last();
        lemma_hex_lower_shape(init);
        assert forall|i: int| 0 <= i < bs.len() implies hex_lower(bs)[2 * i] == hex_digit((bs[i] / 16) as nat)
            && hex_lower(bs)[2 * i + 1] == hex_digit((bs[i] % 16) as nat) by {
            if i < init.len() {
                assert(init[i] == bs[i]);
            }
        }
    }
}

/// A hexadecimal digit is an ASCII character whose value is the digit's value.
proof fn lemma_hex_digit_value(v: nat)
    requires
        v < 16,
    ensures
        '\0' <= hex_digit(v) <= '\u{7f}',
        hex_value(hex_digit(v) as u8) == Some(v),
{
}

/// Decoding the hexadecimal form of 16 bytes gives them back.
pub proof fn lemma_hex_roundtrip(bs: Seq<u8>)
    requires
        bs.len() == 16,
    ensures
        is_hex_16(vstd::utf8::encode_utf8(hex_lower(bs))),
        hex_decoded(vstd::utf8::encode_utf8(hex_lower(bs))) == bs,
{
    let s = hex_lower(bs);
    lemma_hex_lower_shape(bs);
    assert forall|j: int| 0 <= j < s.len() implies '\0' <= #[trigger] s[j] <= '\u{7f}'
        && hex_value(s[j] as u8) is Some by {
        let i = j / 2;
        if j % 2 == 0 {
            assert(j == 2 * i);
            lemma_hex_digit_value((bs[i] / 16) as nat);
        } else {
            assert(j == 2 * i + 1);
            lemma_hex_digit_value((bs[i] % 16) as nat);
        }
    }
    assert(vstd::utf8::is_ascii_chars(s));
    vstd::utf8::is_ascii_chars_encode_utf8(s);
    let e = vstd::utf8::encode_utf8(s);
    assert forall|i: int| 0 <= i < 32 implies (#[trigger] hex_value(e[i])) is Some by {
        assert(e[i] == s[i] as u8);
    }
    let d = hex_decoded(e);
    assert forall|i: int| 0 <= i < 16 implies d[i] == bs[i] by {
        assert(e[2 * i] == s[2 * i] as u8);
        assert(e[2 * i + 1] == s[2 * i + 1] as u8);
        lemma_hex_digit_value((bs[i] / 16) as nat);
        lemma_hex_digit_value((bs[i] % 16) as nat);
    }
    assert(d =~= bs);
}

} // verus!

verus! {

/// The 32-byte BLAKE3 digest of `input`.
pub uninterp spec fn blake3_of(input: Seq<u8>) -> Seq<u8>;

/// Calls `blake3::hash`: the 32-byte BLAKE3 digest of `input`, a function of the bytes alone.
#[verifier::external_body]
fn blake3_digest(input: &[u8]) -> (h: [u8; 32])
    ensures
        h@ == blake3_of(input@),
{
    *blake3::hash(input).as_bytes()
}

/// Each namespace segment's UTF-8 bytes followed by `::`, in order.
pub open spec fn namespace_bytes(ns: Seq<Seq<char>>) -> Seq<u8>
    decreases ns.len(),
{
    if ns.len() == 0 {
        Seq::empty()
    } else {
        vstd::utf8::encode_utf8(ns[0]) + seq![0x3au8, 0x3au8] + namespace_bytes(ns.drop_first())
    }
}

/// The message hashed for an identifier: path, NUL, namespace segments each ended by `::`,
/// NUL, name, NUL, signature, all as UTF-8 bytes.
pub open spec fn derivation_message(path: Seq<char>, ns: Seq<Seq<char>>, name: Seq<char>, sig: Seq<char>) -> Seq<u8> {
    vstd::utf8::encode_utf8(path) + seq![0u8] + namespace_bytes(ns) + seq![0u8] + vstd::utf8::encode_utf8(name)
        + seq![0u8] + vstd::utf8::encode_utf8(sig)
}

proof fn lemma_namespace_push(ns: Seq<Seq<char>>, x: Seq<char>)
    ensures
        namespace_bytes(ns.push(x)) == namespace_bytes(ns) + vstd::utf8::encode_utf8(x) + seq![0x3au8, 0x3au8],
    decreases ns.len(),
{
    let t = ns.push(x);
    assert(t[0] == if ns.len() == 0 { x } else { ns[0] });
    if ns.len() == 0 {
        assert(t.drop_first() =~= Seq::<Seq<char>>::empty());
        assert(namespace_bytes(t.drop_first()) == Seq::<u8>::empty());
        assert(namespace_bytes(ns) == Seq::<u8>::empty());
        assert(namespace_bytes(t) =~= namespace_bytes(ns) + vstd::utf8::encode_utf8(x) + seq![0x3au8, 0x3au8]);
    } else {
        assert(t.drop_first() =~= ns.drop_first().push(x));
        lemma_namespace_push(ns.drop_first(), x);
        assert(namespace_bytes(t) =~= namespace_bytes(ns) + vstd::utf8::encode_utf8(x) + seq![0x3au8, 0x3au8]);
    }
}

/// The identifier bytes derived from a symbol's coordinates: the first 16 bytes of the
/// BLAKE3 digest of the derivation message.
pub open spec fn derived_bytes(path: Seq<char>, ns: Seq<Seq<char>>, name: Seq<char>, sig: Seq<char>) -> Seq<u8> {
    blake3_of(derivation_message(path, ns, name, sig)).subrange(0, 16)
}

/// The identifier derived from a symbol's coordinates.
pub open spec fn derived_id(path: Seq<char>, ns: Seq<Seq<char>>, name: Seq<char>, sig: Seq<char>) -> SymbolId {
    SymbolId(choose|b: [u8; 16]| b@ == derived_bytes(path, ns, name, sig))
}

/// The views of a slice of strings.
pub open spec fn str_views(ns: Seq<&str>) -> Seq<Seq<char>> {
    ns.map_values(|s: &str| s@)
}

/// Appends the bytes of `b` to `v`.
fn append_bytes(v: &mut Vec<u8>, b: &[u8])
    ensures
        final(v)@ == old(v)@ + b@,
{
    let ghost v0 = v@;
    for i in 0..b.len()
        invariant
            v@ == v0 + b@.take(i as int),
    {
        v.push(b[i]);
        assert(b@.take(i + 1) =~= b@.take(i as int).push(b@[i as int]));
        assert(v@ =~= v0 + b@.take(i + 1));
    }
    assert(b@.take(b@.len() as int) =~= b@);
}

impl SymbolId {
    /// Deterministically derives the identifier of a symbol from its file path, namespace
    /// hierarchy, name and signature: the first 16 bytes of the BLAKE3 digest of the
    /// components, each delimited so that variable-length fields cannot run into each other.
    pub fn derive(file_path: &str, namespace_hierarchy: &[&str], symbol_name: &str, signature: &str) -> (id: SymbolId)
        ensures
            id.0@ == derived_bytes(file_path@, str_views(namespace_hierarchy@), symbol_name@, signature@),
            id == derived_id(file_path@, str_views(namespace_hierarchy@), symbol_name@, signature@),
    {
        let ghost ns = str_views(namespace_hierarchy@);
        let mut message: Vec<u8> = Vec::new();
        append_bytes(&mut message, file_path.as_bytes());
        message.push(0u8);
        proof {
            assert(ns.take(0) =~= Seq::<Seq<char>>::empty());
            assert(message@ =~= vstd::utf8::encode_utf8(file_path@) + seq![0u8] + namespace_bytes(ns.take(0)));
        }
        for k in 0..namespace_hierarchy.len()
            invariant
                ns == str_views(namespace_hierarchy@),
                message@ == vstd::utf8::encode_utf8(file_path@) + seq![0u8] + namespace_bytes(ns.take(k as int)),
        {
            let segment: &str = namespace_hierarchy[k];
            append_bytes(&mut message, segment.as_bytes());
            message.push(0x3au8);
            message.push(0x3au8);
            proof {
                assert(ns.take(k + 1) =~= ns.take(k as int).push(segment@));
                lemma_namespace_push(ns.take(k as int), segment@);
                assert(message@ =~= vstd::utf8::encode_utf8(file_path@) + seq![0u8] + namespace_bytes(ns.take(k + 1)));
            }
        }
        assert(ns.take(namespace_hierarchy@.len() as int) =~= ns);
        message.push(0u8);
        append_bytes(&mut message, symbol_name.as_bytes());
        message.push(0u8);
        append_bytes(&mut message, signature.as_bytes());
        assert(message@ =~= derivation_message(file_path@, ns, symbol_name@, signature@));
        let digest = blake3_digest(message.as_slice());
        let mut bytes = [0u8; 16];
        for i in 0..16
            invariant
                digest@ == blake3_of(derivation_message(file_path@, ns, symbol_name@, signature@)),
                forall|j: int| 0 <= j < i ==> bytes@[j] == digest@[j],
        {
            bytes[i] = digest[i];
        }
        assert(bytes@ =~= digest@.subrange(0, 16));
        proof {
            let want = derived_bytes(file_path@, ns, symbol_name@, signature@);
            let c = choose|b: [u8; 16]| b@ == want;
            assert(bytes@ == want);
            assert(c@ == want);
            assert forall|i: int| 0 <= i < 16 implies bytes[i] == c[i] by {
                assert(bytes@[i] == c@[i]);
            }
            assert(bytes =~= c);
        }
        SymbolId(bytes)
    }
}

} // verus!

verus! {

impl std::str::FromStr for SymbolId {
    type Err = LoomError;

    fn from_str(s: &str) -> (r: Result<SymbolId, LoomError>)
        ensures
            r is Ok <==> is_hex_16(s.spec_bytes()),
            r matches Ok(id) ==> id.0@ == hex_decoded(s.spec_bytes()),
            r matches Err(e) ==> e matches LoomError::InvalidSymbolIdHex(t) && t@ == s@,
    {
        SymbolId::from_hex(s)
    }
}

impl<'a> TryFrom<&'a [u8]> for SymbolId {
    type Error = LoomError;

    fn try_from(slice: &'a [u8]) -> (r: Result<SymbolId, LoomError>) {
        if slice.len() != 16 {
            return Err(LoomError::InvalidSymbolIdLength(slice.len()));
        }
        let mut bytes = [0u8; 16];
        for i in 0..16
            invariant
                slice@.len() == 16,
                forall|j: int| 0 <= j < i ==> bytes@[j] == slice@[j],
        {
            bytes[i] = slice[i];
        }
        assert(bytes@ =~= slice@);
        proof {
            let c = choose|b: [u8; 16]| b@ == slice@;
            assert(bytes@ == slice@);
            assert(c@ == slice@);
            assert forall|i: int| 0 <= i < 16 implies bytes[i] == c[i] by {
                assert(bytes@[i] == c@[i]);
            }
            assert(bytes =~= c);
        }
        Ok(SymbolId(bytes))
    }
}

impl<'a> vstd::std_specs::convert::TryFromSpecImpl<&'a [u8]> for SymbolId {
    open spec fn obeys_try_from_spec() -> bool {
        true
    }

    open spec fn try_from_spec(slice: &'a [u8]) -> Result<SymbolId, LoomError> {
        if slice@.len() == 16 {
            Ok(SymbolId(choose|b: [u8; 16]| b@ == slice@))
        } else {
            Err(LoomError::InvalidSymbolIdLength(slice@.len() as usize))
        }
    }
}

} // verus!
