//! Checksums and hashes, and the names that are made from them.
use crate::types::{CacheKey, CacheKeyView};
use sha2::Digest;
use vstd::prelude::*;
use vstd::utf8::encode_utf8;

verus! {

/// The type `sha2::Sha256`: a SHA-256 computation under way.
#[verifier::external_type_specification]
#[verifier::external_body]
pub struct ExSha256(sha2::Sha256);

/// The bytes that a hasher has been given so far.
pub uninterp spec fn sha256_fed(h: sha2::Sha256) -> Seq<u8>;

/// The SHA-256 of a message, as `sha2` computes it.
pub uninterp spec fn sha256_of(message: Seq<u8>) -> Seq<u8>;

/// The CRC-32C of some bytes, as the crate `crc32c` computes it.
pub uninterp spec fn crc32c_of(data: Seq<u8>) -> u32;

/// A message for SHA-256 is shorter than this many bytes: its length in bits is a
/// 64-bit number.
pub const MAX_HASHED: u64 = 0x2000_0000_0000_0000;

/// `sha2::Sha256::new`: a hasher that has been given nothing.
#[verifier::external_body]
pub(crate) fn sha256_new() -> (h: sha2::Sha256)
    ensures
        sha256_fed(h) == Seq::<u8>::empty(),
{
    sha2::Sha256::new()
}

/// `sha2::Digest::update`: the hasher takes the bytes in, behind those it already has.
#[verifier::external_body]
pub(crate) fn sha256_update(h: &mut sha2::Sha256, data: &[u8])
    ensures
        sha256_fed(*final(h)) == sha256_fed(*old(h)) + data@,
{
    h.update(data);
}

/// `sha2::Digest::finalize`: the 32 bytes of the hash of all that the hasher was given.
/// They depend on those bytes alone, not on how they were divided.
#[verifier::external_body]
pub(crate) fn sha256_finalize(h: sha2::Sha256) -> (r: Vec<u8>)
    requires
        sha256_fed(h).len() < MAX_HASHED,
    ensures
        r@ == sha256_of(sha256_fed(h)),
        r@.len() == 32,
{
    h.finalize().to_vec()
}

/// `crc32c::crc32c`: the CRC-32C of the bytes.
#[verifier::external_body]
pub(crate) fn crc32c(data: &[u8]) -> (r: u32)
    ensures
        r == crc32c_of(data@),
{
    crc32c::crc32c(data)
}

/// A hexadecimal digit, in lower case.
pub open spec fn hex_digit(d: nat) -> char {
    if d < 10 {
        crate::text::digit_char(d)
    } else if d == 10 {
        'a'
    } else if d == 11 {
        'b'
    } else if d == 12 {
        'c'
    } else if d == 13 {
        'd'
    } else if d == 14 {
        'e'
    } else {
        'f'
    }
}

/// Two hexadecimal digits for each byte, the high one first.
pub open spec fn hex_text(data: Seq<u8>) -> Seq<char> {
    Seq::new(
        2 * data.len(),
        |i: int|
            if i % 2 == 0 {
                hex_digit(data[i / 2] as nat / 16)
            } else {
                hex_digit(data[i / 2] as nat % 16)
            },
    )
}

/// `hex::encode`: two lower-case hexadecimal digits for each byte.
#[verifier::external_body]
pub(crate) fn hex_encode(data: &[u8]) -> (r: String)
    ensures
        r@ == hex_text(data@),
{
    hex::encode(data)
}

/// The `count` low bytes of `x`, the lowest first.
pub open spec fn le_bytes(x: nat, count: nat) -> Seq<u8>
    decreases count,
{
    if count == 0 {
        Seq::empty()
    } else {
        seq![(x % 256) as u8] + le_bytes(x / 256, (count - 1) as nat)
    }
}

/// The number whose bytes, the lowest first, are `s`.
pub open spec fn from_le_bytes(s: Seq<u8>) -> nat
    decreases s.len(),
{
    if s.len() == 0 {
        0
    } else {
        s[0] as nat + 256 * from_le_bytes(s.drop_first())
    }
}

/// `256` to the power of `count`.
pub open spec fn byte_range(count: nat) -> nat
    decreases count,
{
    if count == 0 {
        1
    } else {
        256 * byte_range((count - 1) as nat)
    }
}

/// A number is read back from its bytes, if it fits in them.
pub proof fn law_le_bytes(x: nat, count: nat)
    requires
        x < byte_range(count),
    ensures
        le_bytes(x, count).len() == count,
        from_le_bytes(le_bytes(x, count)) == x,
    decreases count,
{
    if count > 0 {
        law_le_bytes(x / 256, (count - 1) as nat);
        assert(le_bytes(x, count).drop_first() =~= le_bytes(x / 256, (count - 1) as nat));
    }
}

#[verifier::spinoff_prover]
proof fn lemma_le_bytes_push(x: nat, count: nat)
    ensures
        le_bytes(x, count).len() == count,
        le_bytes(x, count + 1) == le_bytes(x, count).push(((x / byte_range(count)) % 256) as u8),
        byte_range(count) > 0,
        x / byte_range(count + 1) == (x / byte_range(count)) / 256,
    decreases count,
{
    let (r, next) = (byte_range(count), byte_range(count + 1));
    assert(next == 256 * r);
    if count == 0 {
        assert(r == 1 && next == 256);
        assert(x / 1 == x);
        assert(le_bytes(x, 0) =~= Seq::<u8>::empty());
        assert(le_bytes(x / 256, 0) =~= Seq::<u8>::empty());
        assert(le_bytes(x, 1) =~= seq![(x % 256) as u8] + le_bytes(x / 256, 0));
        assert(le_bytes(x, 1) =~= le_bytes(x, 0).push((x % 256) as u8));
    } else {
        let less = (count - 1) as nat;
        let b = byte_range(less);
        lemma_le_bytes_push(x / 256, less);
        assert(r == 256 * b);
        // x / r == (x / 256) / b, and x / next == (x / r) / 256.
        vstd::arithmetic::div_mod::lemma_div_denominator(x as int, 256, b as int);
        assert((x / 256) / b == x / r);
        assert(r * 256 == next) by (nonlinear_arith)
            requires
                next == 256 * r,
        ;
        vstd::arithmetic::div_mod::lemma_div_denominator(x as int, r as int, 256);
        assert((x / r) / 256 == x / next);
        let last = ((x / r) % 256) as u8;
        let first = seq![(x % 256) as u8];
        assert(le_bytes(x / 256, count) == le_bytes(x / 256, less).push(last));
        assert(le_bytes(x, count) =~= first + le_bytes(x / 256, less));
        assert(le_bytes(x, count + 1) =~= first + le_bytes(x / 256, count));
        assert(le_bytes(x, count + 1) =~= le_bytes(x, count).push(last));
    }
}

/// Appends the `count` low bytes of `x`, the lowest first.
pub fn push_le_bytes(out: &mut Vec<u8>, x: u64, count: usize)
    ensures
        final(out)@ == old(out)@ + le_bytes(x as nat, count as nat),
{
    let mut rest = x;
    let mut i: usize = 0;
    assert(byte_range(0) == 1);
    while i < count
        invariant
            i <= count,
            rest == x as nat / byte_range(i as nat),
            out@ =~= old(out)@ + le_bytes(x as nat, i as nat),
        decreases count - i,
    {
        proof {
            lemma_le_bytes_push(x as nat, i as nat);
        }
        out.push((rest % 256) as u8);
        rest = rest / 256;
        i = i + 1;
    }
}

/// The number whose bytes stand in `s`, the lowest first.
pub fn read_le_bytes(s: &[u8]) -> (r: u64)
    requires
        s@.len() <= 8,
    ensures
        r == from_le_bytes(s@),
{
    let mut r: u64 = 0;
    let mut i: usize = s.len();
    assert(s@.skip(i as int) =~= Seq::<u8>::empty());
    while i > 0
        invariant
            i <= s@.len() <= 8,
            r == from_le_bytes(s@.skip(i as int)),
            r < byte_range((s@.len() - i) as nat),
        decreases i,
    {
        i = i - 1;
        assert(s@.skip(i as int).drop_first() =~= s@.skip(i + 1));
        assert(r < byte_range(7)) by {
            lemma_byte_range_monotone((s@.len() - i - 1) as nat, 7);
        }
        assert(byte_range(7) == 0x100_0000_0000_0000) by {
            reveal_with_fuel(byte_range, 8);
        }
        r = r * 256 + s[i] as u64;
    }
    assert(s@.skip(0) =~= s@);
    r
}

proof fn lemma_byte_range_monotone(a: nat, b: nat)
    requires
        a <= b,
    ensures
        byte_range(a) <= byte_range(b),
    decreases b - a,
{
    if a < b {
        lemma_byte_range_monotone(a, (b - 1) as nat);
    }
}

/// How many numbers four and eight bytes can hold.
pub proof fn lemma_byte_ranges()
    ensures
        byte_range(4) == 0x1_0000_0000,
        byte_range(8) == 0x1_0000_0000_0000_0000,
{
    reveal_with_fuel(byte_range, 9);
}

/// What is hashed to name a cached page: its parts, with bars between them.
pub open spec fn key_message(k: CacheKeyView) -> Seq<u8> {
    encode_utf8(k.ns) + seq![124u8] + encode_utf8(k.path) + seq![124u8] + encode_utf8(k.file_hash)
        + seq![124u8] + le_bytes(k.page_id as nat, 4)
}

/// The parts of the key are short enough to be hashed.
pub open spec fn hashable(k: CacheKeyView) -> bool {
    key_message(k).len() < MAX_HASHED
}

/// The name of a cached page.
pub open spec fn key_digest_text(k: CacheKeyView) -> Seq<char> {
    hex_text(sha256_of(key_message(k)))
}

/// The name of a cached page: the SHA-256 of its key, in hexadecimal.
pub fn key_digest(key: &CacheKey) -> (r: String)
    requires
        hashable(key@),
    ensures
        r@ == key_digest_text(key@),
        r@.len() == 64,
        r.is_ascii(),
{
    let bar = [124u8];
    let mut page: Vec<u8> = Vec::new();
    push_le_bytes(&mut page, key.page_id as u64, 4);
    let mut hasher = sha256_new();
    sha256_update(&mut hasher, key.ns.0.as_str().as_bytes());
    sha256_update(&mut hasher, bar.as_slice());
    sha256_update(&mut hasher, key.item.path.as_str().as_bytes());
    sha256_update(&mut hasher, bar.as_slice());
    sha256_update(&mut hasher, key.item.file_hash.as_str().as_bytes());
    sha256_update(&mut hasher, bar.as_slice());
    sha256_update(&mut hasher, page.as_slice());
    assert(bar@ =~= seq![124u8]);
    assert(page@ =~= le_bytes(key.page_id as nat, 4));
    assert(sha256_fed(hasher) =~= key_message(key@));
    let out = sha256_finalize(hasher);
    hex_encode(out.as_slice())
}

/// The place of the page file of a digest, as the names of the folders and of the file:
/// the first two characters, the next two, and the rest with the suffix `.slab`.
pub open spec fn digest_path_text(hex: Seq<char>) -> Seq<Seq<char>> {
    if hex.len() >= 4 {
        seq![hex.subrange(0, 2), hex.subrange(2, 4), hex.skip(4) + ".slab"@]
    } else {
        seq![hex + ".slab"@]
    }
}

/// The place of the page file of a digest, below the folder of the store.
pub fn digest_to_path(hex: &str) -> (r: Vec<String>)
    requires
        hex.is_ascii(),
    ensures
        r@.len() == digest_path_text(hex@).len(),
        forall|i: int| 0 <= i < r@.len() ==> (#[trigger] r@[i])@ == digest_path_text(hex@)[i],
{
    let n = hex.unicode_len();
    let mut r: Vec<String> = Vec::new();
    if n >= 4 {
        r.push(hex.substring_ascii(0, 2).to_string());
        r.push(hex.substring_ascii(2, 4).to_string());
        r.push(crate::text::join(hex.substring_ascii(4, n), ".slab"));
        assert(hex@.subrange(4, n as int) =~= hex@.skip(4));
    } else {
        r.push(crate::text::join(hex, ".slab"));
    }
    r
}

/// No bar stands in `s`.
pub open spec fn without_bar(s: Seq<u8>) -> bool {
    forall|i: int| 0 <= i < s.len() ==> #[trigger] s[i] != 124u8
}

proof fn lemma_split_at_bar(a: Seq<u8>, x: Seq<u8>, b: Seq<u8>, y: Seq<u8>)
    requires
        without_bar(a),
        without_bar(b),
        a + seq![124u8] + x == b + seq![124u8] + y,
    ensures
        a == b,
        x == y,
{
    let s = a + seq![124u8] + x;
    assert(s[a.len() as int] == 124u8);
    assert((b + seq![124u8] + y)[b.len() as int] == 124u8);
    if a.len() < b.len() {
        assert(s[a.len() as int] == b[a.len() as int]);
        assert(false);
    }
    if b.len() < a.len() {
        assert(s[b.len() as int] == a[b.len() as int]);
        assert(false);
    }
    assert(a =~= s.take(a.len() as int));
    assert(b =~= s.take(a.len() as int));
    assert(x =~= s.skip(a.len() as int + 1));
    assert(y =~= s.skip(a.len() as int + 1));
}

/// Different keys are hashed as different messages, as long as neither a namespace nor
/// a path has a bar in it.
pub proof fn law_key_messages_differ(j: CacheKeyView, k: CacheKeyView)
    requires
        without_bar(encode_utf8(j.ns)),
        without_bar(encode_utf8(k.ns)),
        without_bar(encode_utf8(j.path)),
        without_bar(encode_utf8(k.path)),
        key_message(j) == key_message(k),
    ensures
        j == k,
{
    let bar = seq![124u8];
    let jp = le_bytes(j.page_id as nat, 4);
    let kp = le_bytes(k.page_id as nat, 4);
    let jh = encode_utf8(j.file_hash);
    let kh = encode_utf8(k.file_hash);
    let jr = jh + bar + jp;
    let kr = kh + bar + kp;
    let jpath = encode_utf8(j.path);
    let kpath = encode_utf8(k.path);
    assert(key_message(j) =~= encode_utf8(j.ns) + bar + (jpath + bar + jr));
    assert(key_message(k) =~= encode_utf8(k.ns) + bar + (kpath + bar + kr));
    lemma_split_at_bar(encode_utf8(j.ns), jpath + bar + jr, encode_utf8(k.ns), kpath + bar + kr);
    lemma_split_at_bar(jpath, jr, kpath, kr);
    lemma_byte_ranges();
    law_le_bytes(j.page_id as nat, 4);
    law_le_bytes(k.page_id as nat, 4);
    assert(jp =~= jr.skip(jr.len() - 4));
    assert(kp =~= kr.skip(kr.len() - 4));
    assert(jh =~= jr.take(jr.len() - 5));
    assert(kh =~= kr.take(kr.len() - 5));
    crate::text::lemma_utf8_injective(j.ns, k.ns);
    crate::text::lemma_utf8_injective(j.path, k.path);
    crate::text::lemma_utf8_injective(j.file_hash, k.file_hash);
}

/// Hexadecimal text has two digits for each byte, first that of its sixteens, then that of
/// its ones: `0` to `9`, then `a` to `f`.
pub proof fn law_hex(data: Seq<u8>, i: int)
    requires
        0 <= i < data.len(),
    ensures
        hex_text(data).len() == 2 * data.len(),
        ({
            let (high, low) = (data[i] as int / 16, data[i] as int % 16);
            &&& hex_text(data)[2 * i] as u32 == if high < 10 {
                '0' as u32 + high
            } else {
                'a' as u32 + (high - 10)
            }
            &&& hex_text(data)[2 * i + 1] as u32 == if low < 10 {
                '0' as u32 + low
            } else {
                'a' as u32 + (low - 10)
            }
        }),
{
    let (high, low) = (data[i] as nat / 16, data[i] as nat % 16);
    assert((2 * i) / 2 == i && (2 * i + 1) / 2 == i);
    lemma_hex_digit(high);
    lemma_hex_digit(low);
}

proof fn lemma_hex_digit(d: nat)
    requires
        d < 16,
    ensures
        hex_digit(d) as u32 == if d < 10 {
            '0' as u32 + d
        } else {
            'a' as u32 + (d - 10)
        },
{
}

/// Different bytes have different hexadecimal texts.
pub proof fn law_hex_injective(a: Seq<u8>, b: Seq<u8>)
    requires
        hex_text(a) == hex_text(b),
    ensures
        a == b,
{
    assert(hex_text(a).len() == 2 * a.len());
    assert(hex_text(b).len() == 2 * b.len());
    assert forall|i: int| 0 <= i < a.len() implies a[i] == b[i] by {
        law_hex(a, i);
        law_hex(b, i);
    }
    assert(a =~= b);
}

/// One byte more of a number is the next higher one.
pub proof fn law_le_bytes_order(x: nat, count: nat)
    ensures
        le_bytes(x, 0).len() == 0,
        le_bytes(x, count).len() == count,
        le_bytes(x, count + 1) == le_bytes(x, count).push(((x / byte_range(count)) % 256) as u8),
        byte_range(0) == 1,
        byte_range(count + 1) == 256 * byte_range(count),
{
    lemma_le_bytes_push(x, count);
}

/// What is read of bytes is the lowest, and 256 times what is read of the others.
pub proof fn law_from_le_bytes(s: Seq<u8>, b: u8)
    ensures
        from_le_bytes(Seq::empty()) == 0,
        from_le_bytes(seq![b] + s) == b + 256 * from_le_bytes(s),
{
    assert((seq![b] + s).drop_first() =~= s);
}

/// The folders and the name of a page file, put together, are its digest and a suffix.
pub proof fn law_digest_path(hex: Seq<char>)
    ensures
        hex.len() >= 4 ==> {
            let p = digest_path_text(hex);
            &&& p.len() == 3
            &&& p[0].len() == 2
            &&& p[1].len() == 2
            &&& p[0] + p[1] + p[2] == hex + ".slab"@
        },
        hex.len() < 4 ==> digest_path_text(hex).len() == 1 && digest_path_text(hex)[0] == hex
            + ".slab"@,
{
    if hex.len() >= 4 {
        let p = digest_path_text(hex);
        assert(p[0] + p[1] + p[2] =~= hex + ".slab"@);
    }
}

/// The parts of a key stand in what is hashed of it one behind the other, each whole, with
/// a bar between them, and its number in four bytes at the end.
pub proof fn law_key_message(k: CacheKeyView)
    ensures
        ({
            let m = key_message(k);
            let (a, b, c) = (encode_utf8(k.ns), encode_utf8(k.path), encode_utf8(k.file_hash));
            let (i, j) = (a.len() as int, (a.len() + 1 + b.len()) as int);
            &&& m.len() == a.len() + b.len() + c.len() + 7
            &&& m.take(i) == a
            &&& m[i] == '|' as u32
            &&& m.subrange(i + 1, j) == b
            &&& m[j] == '|' as u32
            &&& m.subrange(j + 1, m.len() - 5) == c
            &&& m[m.len() - 5] == '|' as u32
            &&& from_le_bytes(m.skip(m.len() - 4)) == k.page_id
        }),
{
    let m = key_message(k);
    let (a, b, c) = (encode_utf8(k.ns), encode_utf8(k.path), encode_utf8(k.file_hash));
    let p = le_bytes(k.page_id as nat, 4);
    lemma_byte_ranges();
    law_le_bytes(k.page_id as nat, 4);
    let (i, j) = (a.len() as int, (a.len() + 1 + b.len()) as int);
    assert(m.take(i) =~= a);
    assert(m.subrange(i + 1, j) =~= b);
    assert(m.subrange(j + 1, m.len() - 5) =~= c);
    assert(m.skip(m.len() - 4) =~= p);
}

/// A page is named by 64 hexadecimal digits, those of the SHA-256 of its key.
pub proof fn law_key_digest(j: CacheKeyView, k: CacheKeyView)
    ensures
        key_digest_text(j).len() == 2 * sha256_of(key_message(j)).len(),
        key_digest_text(j) == key_digest_text(k) <==> sha256_of(key_message(j)) == sha256_of(
            key_message(k),
        ),
{
    if key_digest_text(j) == key_digest_text(k) {
        law_hex_injective(sha256_of(key_message(j)), sha256_of(key_message(k)));
    }
}

} // verus!
