use vstd::prelude::*;

use std::collections::HashMap;
use std::collections::HashSet;

use vstd::std_specs::hash::obeys_key_model;
use vstd::std_specs::hash::axiom_random_state_builds_valid_hashers;

use crate::error::ErrorKind;
use crate::error::Result;

verus! {

/// Size of the scratch buffer that `skip_bytes` reads through.
pub const SKIP_BUFFER_SIZE: usize = 1024;

/// `128^k`: the weight of the `k`-th seven-bit group of a variable-length integer.
pub open spec fn pow128(k: nat) -> nat
    decreases k,
{
    if k == 0 {
        1
    } else {
        128 * pow128((k - 1) as nat)
    }
}

/// The value of the low seven bits of the first `n` bytes of `s`, least
/// significant group first.
pub open spec fn group_sum(s: Seq<u8>, n: nat) -> nat
    decreases n,
{
    if n == 0 {
        0
    } else {
        group_sum(s, (n - 1) as nat) + (s[n - 1] % 128) as nat * pow128((n - 1) as nat)
    }
}

/// The first position at or after `k` and below `limit` that ends a
/// variable-length integer (its byte is below `0x80`), or the first position
/// where the bytes run out, or `limit`, whichever comes first.
pub open spec fn stop_at(s: Seq<u8>, k: nat, limit: nat) -> nat
    decreases limit - k,
{
    if k >= limit || k >= s.len() || s[k as int] < 128 {
        k
    } else {
        stop_at(s, k + 1, limit)
    }
}

/// The value of the first `n` bytes of `s`, most significant first.
pub open spec fn be_value(s: Seq<u8>, n: nat) -> nat
    decreases n,
{
    if n == 0 {
        0
    } else {
        be_value(s, (n - 1) as nat) * 256 + s[n - 1] as nat
    }
}

/// Decoding of a vint at the front of `s`: its value and the number of bytes
/// it takes, or the failure. At most five bytes; of the fifth only the low
/// four bits may be set.
pub open spec fn vint_decode(s: Seq<u8>) -> Result<(i32, nat)> {
    let t = stop_at(s, 0, 4);
    if t >= s.len() {
        Err(ErrorKind::UnexpectedEOF)
    } else if t == 4 && s[4] > 15 {
        Err(ErrorKind::IllegalState)
    } else {
        Ok((signed(group_sum(s, t + 1), 32) as i32, t + 1))
    }
}

/// Decoding of a vlong at the front of `s`. Nine bytes give 63 bits; a
/// tenth, when `negative_allowed`, must be 0 or 1 and gives bit 63.
pub open spec fn vlong_decode(s: Seq<u8>, negative_allowed: bool) -> Result<(i64, nat)> {
    let t = stop_at(s, 0, 9);
    if t < 9 {
        if t >= s.len() {
            Err(ErrorKind::UnexpectedEOF)
        } else {
            Ok((group_sum(s, t + 1) as i64, t + 1))
        }
    } else if !negative_allowed {
        Err(ErrorKind::IllegalState)
    } else if s.len() < 10 {
        Err(ErrorKind::UnexpectedEOF)
    } else if s[9] > 1 {
        Err(ErrorKind::IllegalState)
    } else {
        Ok((signed(group_sum(s, 9) + s[9] as nat * 0x8000_0000_0000_0000, 64) as i64, 10))
    }
}

/// `2^bits`.
pub open spec fn pow2_bits(bits: nat) -> nat {
    if bits == 16 {
        0x1_0000
    } else if bits == 32 {
        0x1_0000_0000
    } else {
        0x1_0000_0000_0000_0000
    }
}

/// The two's complement reading of an unsigned `bits`-wide value.
pub open spec fn signed(v: nat, bits: nat) -> int {
    if v < pow2_bits(bits) / 2 {
        v as int
    } else {
        v - pow2_bits(bits)
    }
}

/// The unsigned reading of a signed `bits`-wide value.
pub open spec fn unsigned(v: int, bits: nat) -> nat {
    if v >= 0 {
        v as nat
    } else {
        (v + pow2_bits(bits)) as nat
    }
}

/// Reads the bits of `v` as a two's complement 16-bit integer.
pub fn u16_as_i16(v: u16) -> (r: i16)
    ensures
        r == signed(v as nat, 16),
{
    if v < 0x8000 {
        v as i16
    } else {
        (v - 0x8000) as i16 - 0x4000 - 0x4000
    }
}

/// Reads the bits of `v` as a two's complement 32-bit integer.
pub fn u32_as_i32(v: u32) -> (r: i32)
    ensures
        r == signed(v as nat, 32),
{
    if v < 0x8000_0000 {
        v as i32
    } else {
        (v - 0x8000_0000) as i32 - 0x4000_0000 - 0x4000_0000
    }
}

/// Reads the bits of `v` as a two's complement 64-bit integer.
pub fn u64_as_i64(v: u64) -> (r: i64)
    ensures
        r == signed(v as nat, 64),
{
    if v < 0x8000_0000_0000_0000 {
        v as i64
    } else {
        (v - 0x8000_0000_0000_0000) as i64 - 0x4000_0000_0000_0000 - 0x4000_0000_0000_0000
    }
}

/// The signed value that the zig-zag code `v` stands for: even codes are
/// `v / 2`, odd codes `-(v + 1) / 2`.
pub open spec fn unzigzag(v: nat) -> int {
    if v % 2 == 0 {
        (v / 2) as int
    } else {
        -((v / 2) as int) - 1
    }
}

/// Decoding of a zig-zag coded vint at the front of `s`.
pub open spec fn zint_decode(s: Seq<u8>) -> Result<(i32, nat)> {
    match vint_decode(s) {
        Ok((v, n)) => Ok((unzigzag(unsigned(v as int, 32)) as i32, n)),
        Err(e) => Err(e),
    }
}

/// Decoding of a zig-zag coded vlong (sign byte allowed) at the front of `s`.
pub open spec fn zlong_decode(s: Seq<u8>) -> Result<(i64, nat)> {
    match vlong_decode(s, true) {
        Ok((v, n)) => Ok((unzigzag(unsigned(v as int, 64)) as i64, n)),
        Err(e) => Err(e),
    }
}

proof fn lemma_group_sum_bound(s: Seq<u8>, n: nat)
    ensures
        group_sum(s, n) < pow128(n),
    decreases n,
{
    if n > 0 {
        lemma_group_sum_bound(s, (n - 1) as nat);
        let m = (n - 1) as nat;
        assert(group_sum(s, n) < pow128(n)) by (nonlinear_arith)
            requires
                group_sum(s, n) == group_sum(s, m) + (s[m as int] % 128) as nat * pow128(m),
                group_sum(s, m) < pow128(m),
                (s[m as int] % 128) <= 127,
                pow128(n) == 128 * pow128(m),
        ;
    }
}

proof fn lemma_stop_at_skip(s: Seq<u8>, k: nat, limit: nat)
    requires
        k <= limit,
        k <= s.len(),
        forall|j: int| 0 <= j < k ==> s[j] >= 128,
    ensures
        stop_at(s, 0, limit) == stop_at(s, k, limit),
    decreases k,
{
    if k > 0 {
        lemma_stop_at_skip(s, (k - 1) as nat, limit);
    }
}

/// Turns a zig-zag code back into the signed value it stands for.
pub fn zigzag_decode_i32(v: u32) -> (r: i32)
    ensures
        r == unzigzag(v as nat),
{
    let half = (v / 2) as i32;
    if v % 2 == 0 {
        half
    } else {
        -half - 1
    }
}

/// Turns a 64-bit zig-zag code back into the signed value it stands for.
pub fn zigzag_decode_i64(v: u64) -> (r: i64)
    ensures
        r == unzigzag(v as nat),
{
    let half = (v / 2) as i64;
    if v % 2 == 0 {
        half
    } else {
        -half - 1
    }
}

/// The value of a decoding, without the count of bytes it took.
pub open spec fn value_of<T>(d: Result<(T, nat)>) -> Result<T> {
    match d {
        Ok((v, _)) => Ok(v),
        Err(e) => Err(e),
    }
}

/// The number of bytes a successful decoding took.
pub open spec fn consumed<T>(d: Result<(T, nat)>) -> nat {
    match d {
        Ok((_, n)) => n,
        Err(_) => 0,
    }
}

/// The text that the bytes `b` spell in UTF-8, or `None` when they are not
/// valid UTF-8.
pub uninterp spec fn utf8_text(b: Seq<u8>) -> Option<Seq<char>>;

/// Decoding of a length-prefixed string at the front of `s`: a vint byte
/// length, which must not be negative, then that many bytes of UTF-8.
pub open spec fn string_decode(s: Seq<u8>) -> Result<(Seq<char>, nat)> {
    match vint_decode(s) {
        Err(e) => Err(e),
        Ok((len, n)) => if len < 0 {
            Err(ErrorKind::IllegalState)
        } else if s.len() < n + len {
            Err(ErrorKind::UnexpectedEOF)
        } else {
            match utf8_text(s.subrange(n as int, n + len)) {
                None => Err(ErrorKind::IllegalState),
                Some(t) => Ok((t, (n + len) as nat)),
            }
        },
    }
}

/// Decoding of the count that prefixes a map or set of strings: a vint that
/// must not be negative.
pub open spec fn count_decode(s: Seq<u8>) -> Result<(i32, nat)> {
    match vint_decode(s) {
        Err(e) => Err(e),
        Ok((c, n)) => if c < 0 {
            Err(ErrorKind::IllegalState)
        } else {
            Ok((c, n))
        },
    }
}

/// Relies on `String::from_utf8`: it succeeds exactly on valid UTF-8, with
/// the text the bytes spell, which depends on the bytes alone.
#[verifier::external_body]
fn string_from_utf8(bytes: Vec<u8>) -> (r: Option<String>)
    ensures
        r is Some <==> utf8_text(bytes@) is Some,
        r is Some ==> r->Some_0@ == utf8_text(bytes@)->Some_0,
{
    String::from_utf8(bytes).ok()
}

/// The bits of `v` as an unsigned 32-bit integer.
pub fn i32_as_u32(v: i32) -> (r: u32)
    ensures
        r == unsigned(v as int, 32),
{
    if v >= 0 {
        v as u32
    } else {
        (v as i64 + 0x1_0000_0000) as u32
    }
}

/// The bits of `v` as an unsigned 64-bit integer.
pub fn i64_as_u64(v: i64) -> (r: u64)
    ensures
        r == unsigned(v as int, 64),
{
    if v >= 0 {
        v as u64
    } else {
        (v + 0x4000_0000_0000_0000 + 0x4000_0000_0000_0000) as u64 + 0x8000_0000_0000_0000
    }
}

proof fn lemma_pow128_values()
    ensures
        pow128(4) == 0x1000_0000,
        pow128(9) == 0x8000_0000_0000_0000,
        forall|k: nat| k <= 9 ==> #[trigger] pow128(k) <= 0x8000_0000_0000_0000,
{
    reveal_with_fuel(pow128, 10);
    assert forall|k: nat| k <= 9 implies #[trigger] pow128(k) <= 0x8000_0000_0000_0000 by {
        reveal_with_fuel(pow128, 10);
    }
}

/// The zig-zag code of a signed value: `2n` for `n >= 0`, `-2n - 1` below.
pub open spec fn zigzag(n: int) -> nat {
    if n >= 0 {
        (2 * n) as nat
    } else {
        (-2 * n - 1) as nat
    }
}

/// The variable-length encoding of `v`: seven bits a byte, least
/// significant group first, the top bit set on every byte but the last.
pub open spec fn varint_encode(v: nat) -> Seq<u8>
    decreases v,
{
    if v < 128 {
        seq![v as u8]
    } else {
        seq![(v % 128 + 128) as u8] + varint_encode(v / 128)
    }
}

proof fn lemma_unzigzag(n: int)
    ensures
        unzigzag(zigzag(n)) == n,
{
}

proof fn lemma_group_sum_cons(b: u8, t: Seq<u8>, n: nat)
    requires
        n <= t.len(),
    ensures
        group_sum(seq![b] + t, n + 1) == (b % 128) as nat + 128 * group_sum(t, n),
    decreases n,
{
    let s = seq![b] + t;
    if n > 0 {
        let m = (n - 1) as nat;
        lemma_group_sum_cons(b, t, m);
        assert(s[n as int] == t[m as int]);
        let x = (t[m as int] % 128) as nat;
        let pm = pow128(m);
        assert(group_sum(s, n + 1) == group_sum(s, n) + x * pow128(n));
        assert(pow128(n) == 128 * pm);
        assert(x * pow128(n) == 128 * (x * pm)) by (nonlinear_arith)
            requires
                pow128(n) == 128 * pm,
        ;
        assert(group_sum(t, n) == group_sum(t, m) + x * pm);
    } else {
        assert(s[0] == b);
        assert(pow128(0) == 1);
        assert(group_sum(s, 1) == group_sum(s, 0) + (s[0] % 128) as nat * pow128(0));
    }
}

proof fn lemma_stop_at_cons(b: u8, t: Seq<u8>, k: nat, limit: nat)
    requires
        k <= limit,
    ensures
        stop_at(seq![b] + t, k + 1, limit + 1) == 1 + stop_at(t, k, limit),
    decreases limit - k,
{
    let s = seq![b] + t;
    if k < limit && k < t.len() {
        assert(s[(k + 1) as int] == t[k as int]);
        if t[k as int] >= 128 {
            lemma_stop_at_cons(b, t, k + 1, limit);
        }
    }
}

/// The shape of an encoding followed by any bytes: the value and the end of
/// the encoding can be read back.
#[verifier::spinoff_prover]
proof fn lemma_varint_decodes(v: nat, rest: Seq<u8>, limit: nat)
    ensures
        varint_encode(v).len() >= 1,
        group_sum(varint_encode(v) + rest, varint_encode(v).len()) == v,
        stop_at(varint_encode(v) + rest, 0, limit) == if varint_encode(v).len() - 1 < limit {
            (varint_encode(v).len() - 1) as nat
        } else {
            limit
        },
        (varint_encode(v) + rest)[varint_encode(v).len() - 1] as nat == v / pow128(
            (varint_encode(v).len() - 1) as nat,
        ),
        forall|k: nat| v < pow128(k) && k >= 1 ==> #[trigger] pow128(k) > 0 && varint_encode(v).len()
            <= k,
    decreases v,
{
    let e = varint_encode(v);
    let s = e + rest;
    if v < 128 {
        assert(e.len() == 1);
        assert(s[0] == v as u8);
        assert(pow128(0) == 1);
        assert(group_sum(s, 1) == group_sum(s, 0) + (s[0] % 128) as nat * pow128(0));
        assert forall|k: nat| v < pow128(k) && k >= 1 implies #[trigger] pow128(k) > 0
            && e.len() <= k by {
            lemma_pow128_positive(k);
        }
    } else {
        let b = (v % 128 + 128) as u8;
        let e2 = varint_encode(v / 128);
        let t = e2 + rest;
        lemma_varint_decodes(v / 128, rest, if limit > 0 { (limit - 1) as nat } else { 0 });
        assert(e == seq![b] + e2);
        assert(e.len() == e2.len() + 1);
        assert(s =~= seq![b] + t);
        lemma_group_sum_cons(b, t, e2.len());
        assert(s[0] == b);
        assert(b % 128 == v % 128);
        assert(v == 128 * (v / 128) + v % 128);
        if limit > 0 {
            lemma_stop_at_cons(b, t, 0, (limit - 1) as nat);
        }
        assert(s[e.len() - 1] == t[e2.len() - 1]);
        lemma_pow128_positive((e2.len() - 1) as nat);
        assert(v / pow128((e.len() - 1) as nat) == (v / 128) / pow128((e2.len() - 1) as nat)) by {
            lemma_div_twice(v, pow128((e2.len() - 1) as nat));
        }
        assert forall|k: nat| v < pow128(k) && k >= 1 implies #[trigger] pow128(k) > 0
            && e.len() <= k by {
            lemma_pow128_positive(k);
            if k >= 2 {
                let k1 = (k - 1) as nat;
                assert(pow128(k) == 128 * pow128(k1));
                assert(v / 128 < pow128(k1)) by (nonlinear_arith)
                    requires
                        v < 128 * pow128(k1),
                ;
                assert(pow128(k1) > 0 && e2.len() <= k1);
            } else {
                reveal_with_fuel(pow128, 2);
            }
        }
    }
}

/// An encoding of at most `k` bytes holds a value below `128^k`.
proof fn lemma_varint_len_bound(v: nat, k: nat)
    requires
        varint_encode(v).len() <= k,
    ensures
        v < pow128(k),
    decreases v,
{
    if v >= 128 {
        assert(varint_encode(v) == seq![(v % 128 + 128) as u8] + varint_encode(v / 128));
        lemma_varint_len_bound(v / 128, (k - 1) as nat);
        assert(pow128(k) == 128 * pow128((k - 1) as nat));
        assert(v < 128 * pow128((k - 1) as nat)) by (nonlinear_arith)
            requires
                v / 128 < pow128((k - 1) as nat),
        ;
    } else {
        lemma_pow128_positive(k);
        if k > 0 {
            assert(pow128(k) == 128 * pow128((k - 1) as nat));
            lemma_pow128_positive((k - 1) as nat);
        }
    }
}

proof fn lemma_pow128_positive(k: nat)
    ensures
        pow128(k) > 0,
    decreases k,
{
    if k > 0 {
        lemma_pow128_positive((k - 1) as nat);
    }
}

proof fn lemma_div_twice(v: nat, p: nat)
    requires
        p > 0,
    ensures
        v / (128 * p) == (v / 128) / p,
{
    vstd::arithmetic::div_mod::lemma_div_denominator(v as int, 128, p as int);
}

/// A zig-zag coded vint decodes to the value it encodes, whatever follows
/// it, for every 32-bit value.
pub proof fn zint_round_trip(n: i32, rest: Seq<u8>)
    ensures
        zint_decode(varint_encode(zigzag(n as int)) + rest) == Ok::<(i32, nat), ErrorKind>(
            (n, varint_encode(zigzag(n as int)).len()),
        ),
{
    let v = zigzag(n as int);
    let e = varint_encode(v);
    let s = e + rest;
    lemma_varint_decodes(v, rest, 4);
    lemma_pow128_values();
    reveal_with_fuel(pow128, 6);
    assert(v < pow128(5));
    assert(pow128(5) > 0 && e.len() <= 5);
    lemma_unzigzag(n as int);
    assert(v < 0x1_0000_0000);
    if e.len() == 5 {
        assert(v / pow128(4) < 16) by (nonlinear_arith)
            requires
                v < 0x1_0000_0000,
                pow128(4) == 0x1000_0000,
        ;
    }
    assert(stop_at(s, 0, 4) == e.len() - 1);
    assert(group_sum(s, e.len()) == v);
    assert(vint_decode(s) == Ok::<(i32, nat), ErrorKind>((signed(v, 32) as i32, e.len())));
    assert(unsigned(signed(v, 32) as i32 as int, 32) == v);
}

/// A zig-zag coded vlong, read with the sign byte allowed, decodes to the
/// value it encodes, whatever follows it, for every 64-bit value.
pub proof fn zlong_round_trip(n: i64, rest: Seq<u8>)
    ensures
        zlong_decode(varint_encode(zigzag(n as int)) + rest) == Ok::<(i64, nat), ErrorKind>(
            (n, varint_encode(zigzag(n as int)).len()),
        ),
{
    let v = zigzag(n as int);
    let e = varint_encode(v);
    let s = e + rest;
    lemma_varint_decodes(v, rest, 9);
    lemma_pow128_values();
    reveal_with_fuel(pow128, 11);
    assert(v < pow128(10));
    assert(pow128(10) > 0 && e.len() <= 10);
    assert(v < 0x1_0000_0000_0000_0000);
    if e.len() == 10 {
        assert(group_sum(s, 10) == group_sum(s, 9) + (s[9] % 128) as nat * pow128(9));
        assert(v / pow128(9) < 2) by (nonlinear_arith)
            requires
                v < 0x1_0000_0000_0000_0000,
                pow128(9) == 0x8000_0000_0000_0000,
        ;
        assert(s[9] <= 1);
        assert(vlong_decode(s, true) == Ok::<(i64, nat), ErrorKind>((signed(v, 64) as i64, 10)));
    } else {
        assert(stop_at(s, 0, 9) == e.len() - 1);
        assert(v < 0x8000_0000_0000_0000) by {
            lemma_varint_len_bound(v, 9);
        }
        assert(vlong_decode(s, true) == Ok::<(i64, nat), ErrorKind>((v as i64, e.len())));
        assert(signed(v, 64) == v);
    }
    assert(unsigned(signed(v, 64) as i64 as int, 64) == v);
    lemma_unzigzag(n as int);
}

/// A vint whose first four bytes all continue is rejected when its fifth
/// byte has any of its top four bits set.
pub proof fn vint_fifth_byte_checked(s: Seq<u8>)
    requires
        s.len() >= 5,
        forall|j: int| 0 <= j < 4 ==> s[j] >= 128,
        s[4] > 15,
    ensures
        vint_decode(s) == Err::<(i32, nat), ErrorKind>(ErrorKind::IllegalState),
{
    lemma_stop_at_skip(s, 4, 4);
}

/// A string whose length prefix decodes to a negative value is rejected as
/// malformed; one whose body is cut short fails for want of bytes.
pub proof fn string_length_checked(s: Seq<u8>)
    requires
        vint_decode(s) is Ok,
    ensures
        vint_decode(s)->Ok_0.0 < 0 ==> string_decode(s) == Err::<(Seq<char>, nat), ErrorKind>(
            ErrorKind::IllegalState,
        ),
        vint_decode(s)->Ok_0.0 >= 0 && s.len() < vint_decode(s)->Ok_0.1 + vint_decode(s)->Ok_0.0
            ==> string_decode(s) == Err::<(Seq<char>, nat), ErrorKind>(ErrorKind::UnexpectedEOF),
{
}

/// Decoding of `n` length-prefixed strings in a row at the front of `s`:
/// their texts and the bytes they take, or the first failure.
pub open spec fn strings_decode(s: Seq<u8>, n: nat) -> Result<(Seq<Seq<char>>, nat)>
    decreases n,
{
    if n == 0 {
        Ok((Seq::empty(), 0))
    } else {
        match string_decode(s) {
            Err(e) => Err(e),
            Ok((t, k)) => match strings_decode(s.skip(k as int), (n - 1) as nat) {
                Err(e) => Err(e),
                Ok((ts, m)) => Ok((seq![t] + ts, k + m)),
            },
        }
    }
}

/// A decoding preceded by `got`, which took `p` bytes.
pub open spec fn prepend(got: Seq<Seq<char>>, p: nat, d: Result<(Seq<Seq<char>>, nat)>) -> Result<
    (Seq<Seq<char>>, nat),
> {
    match d {
        Err(e) => Err(e),
        Ok((ts, m)) => Ok((got + ts, p + m)),
    }
}

/// Decoding of a count (see `count_decode`) followed by `per` strings for
/// each unit of the count: `per` is 2 for a map, key then value, and 1 for
/// a set. Gives all the texts in order and the bytes taken.
pub open spec fn counted_strings_decode(s: Seq<u8>, per: nat) -> Result<(Seq<Seq<char>>, nat)> {
    match count_decode(s) {
        Err(e) => Err(e),
        Ok((c, n)) => prepend(Seq::empty(), n, strings_decode(s.skip(n as int), per * c as nat)),
    }
}

proof fn lemma_strings_step(s: Seq<u8>, left: nat, got: Seq<Seq<char>>, p: nat)
    requires
        left > 0,
        p <= s.len(),
    ensures
        string_decode(s.skip(p as int)) is Err ==> prepend(got, p, strings_decode(s.skip(p as int), left))
            == Err::<(Seq<Seq<char>>, nat), ErrorKind>(string_decode(s.skip(p as int))->Err_0),
        string_decode(s.skip(p as int)) is Ok ==> ({
            let k = string_decode(s.skip(p as int))->Ok_0.1;
            &&& p + k <= s.len()
            &&& s.skip(p as int).skip(k as int) == s.skip((p + k) as int)
            &&& prepend(got, p, strings_decode(s.skip(p as int), left)) == prepend(
                got.push(string_decode(s.skip(p as int))->Ok_0.0),
                p + k,
                strings_decode(s.skip((p + k) as int), (left - 1) as nat),
            )
        }),
{
    let t = s.skip(p as int);
    if string_decode(t) is Ok {
        let (x, k) = string_decode(t)->Ok_0;
        assert(t.skip(k as int) =~= s.skip((p + k) as int));
        match strings_decode(t.skip(k as int), (left - 1) as nat) {
            Ok((ts, m)) => {
                assert(got + (seq![x] + ts) =~= got.push(x) + ts);
            },
            Err(_) => {},
        }
    }
}

/// Whether `map` holds a key for each key text of the pairs in `texts`
/// (key, value, key, value, ...) and no other, each with the value of a
/// pair of that key.
pub open spec fn holds_pairs(map: Map<String, String>, texts: Seq<Seq<char>>) -> bool {
    &&& forall|x: String| #[trigger] map.contains_key(x) ==> exists|j: int|
        0 <= j < texts.len() / 2 && #[trigger] texts[2 * j] == x@ && texts[2 * j + 1] == map[x]@
    &&& forall|j: int| 0 <= j < texts.len() / 2 ==> exists|x: String|
        map.contains_key(x) && x@ == #[trigger] texts[2 * j]
}

/// Whether the strings of `set` spell exactly the texts of `texts`.
pub open spec fn holds_exactly(set: Set<String>, texts: Seq<Seq<char>>) -> bool {
    &&& forall|x: String| #[trigger] set.contains(x) ==> exists|j: int|
        0 <= j < texts.len() && texts[j] == x@
    &&& forall|j: int| 0 <= j < texts.len() ==> exists|x: String|
        set.contains(x) && x@ == #[trigger] texts[j]
}

/// A source of bytes, read strictly front to back, and the decoding of the
/// engine's primitive values from it.
pub trait DataInput {
    /// The bytes this input has still to give, in order.
    spec fn remaining(&self) -> Seq<u8>;

    /// Reads the next byte; fails when the input is exhausted.
    fn read_byte(&mut self) -> (r: Result<u8>)
        ensures
            old(self).remaining().len() == 0 ==> r == Err::<u8, ErrorKind>(ErrorKind::UnexpectedEOF),
            old(self).remaining().len() == 0 ==> final(self).remaining() == old(self).remaining(),
            old(self).remaining().len() > 0 ==> r == Ok::<u8, ErrorKind>(old(self).remaining()[0]),
            old(self).remaining().len() > 0 ==> final(self).remaining() == old(
                self,
            ).remaining().drop_first(),
    ;

    /// Fills `b[offset..offset + length]` with the next `length` bytes.
    /// Fails when the buffer cannot hold that range, before reading, or when
    /// the input runs out.
    fn read_bytes(&mut self, b: &mut [u8], offset: usize, length: usize) -> (r: Result<()>)
        ensures
            final(b)@.len() == old(b)@.len(),
            offset + length > old(b)@.len() ==> r == Err::<(), ErrorKind>(ErrorKind::IllegalArgument),
            offset + length > old(b)@.len() ==> final(self).remaining() == old(self).remaining(),
            offset + length > old(b)@.len() ==> final(b)@ == old(b)@,
            offset + length <= old(b)@.len() && old(self).remaining().len() < length ==> r == Err::<
                (),
                ErrorKind,
            >(ErrorKind::UnexpectedEOF),
            offset + length <= old(b)@.len() && old(self).remaining().len() >= length ==> r == Ok::<
                (),
                ErrorKind,
            >(()),
            (r is Ok) ==> final(b)@ == old(b)@.take(offset as int) + old(self).remaining().take(
                length as int,
            ) + old(b)@.skip(offset + length),
            (r is Ok) ==> final(self).remaining() == old(self).remaining().skip(length as int),
    {
        if offset > b.len() || length > b.len() - offset {
            return Err(ErrorKind::IllegalArgument);
        }
        let ghost s = self.remaining();
        let mut i: usize = 0;
        while i < length
            invariant
                s == old(self).remaining(),
                offset + length <= b.len(),
                b@.len() == old(b)@.len(),
                i <= length,
                i <= s.len(),
                self.remaining() == s.skip(i as int),
                forall|j: int|
                    0 <= j < b@.len() ==> #[trigger] b@[j] == if offset <= j < offset + i {
                        s[j - offset]
                    } else {
                        old(b)@[j]
                    },
            decreases length - i,
        {
            let x = self.read_byte()?;
            b[offset + i] = x;
            proof {
                assert(s.skip(i as int).drop_first() =~= s.skip(i + 1));
            }
            i = i + 1;
        }
        assert(b@ =~= old(b)@.take(offset as int) + s.take(length as int) + old(b)@.skip(
            offset + length,
        ));
        Ok(())
    }

    /// Reads a vint: seven bits a byte, least significant first, while the
    /// top bit of the byte is set; at most five bytes.
    fn read_vint(&mut self) -> (r: Result<i32>)
        ensures
            r == value_of(vint_decode(old(self).remaining())),
            (r is Ok) ==> final(self).remaining() == old(self).remaining().skip(
                consumed(vint_decode(old(self).remaining())) as int,
            ),
    {
        let ghost s = self.remaining();
        let mut value: u64 = 0;
        let mut mult: u64 = 1;
        let mut k: usize = 0;
        proof {
            lemma_pow128_values();
        }
        loop
            invariant
                s == old(self).remaining(),
                k <= 4,
                k <= s.len(),
                self.remaining() == s.skip(k as int),
                value == group_sum(s, k as nat),
                mult == pow128(k as nat),
                forall|j: int| 0 <= j < k ==> s[j] >= 128,
                pow128(4) == 0x1000_0000,
                forall|j: nat| j <= 9 ==> #[trigger] pow128(j) <= 0x8000_0000_0000_0000,
            decreases 4 - k,
        {
            proof {
                lemma_stop_at_skip(s, k as nat, 4);
                lemma_group_sum_bound(s, k as nat);
                lemma_group_sum_bound(s, (k + 1) as nat);
            }
            let b = self.read_byte()?;
            proof {
                assert(s.skip(k as int).drop_first() =~= s.skip(k + 1));
            }
            if k == 4 {
                if b > 15 {
                    return Err(ErrorKind::IllegalState);
                }
                value = value + b as u64 * mult;
                return Ok(u32_as_i32(value as u32));
            }
            value = value + (b % 128) as u64 * mult;
            if b < 128 {
                return Ok(u32_as_i32(value as u32));
            }
            mult = mult * 128;
            k = k + 1;
        }
    }

    /// Reads a zig-zag coded vint.
    fn read_zint(&mut self) -> (r: Result<i32>)
        ensures
            r == value_of(zint_decode(old(self).remaining())),
            (r is Ok) ==> final(self).remaining() == old(self).remaining().skip(
                consumed(zint_decode(old(self).remaining())) as int,
            ),
    {
        let v = self.read_vint()?;
        Ok(zigzag_decode_i32(i32_as_u32(v)))
    }

    /// Reads a vlong of at most nine bytes.
    fn read_vlong(&mut self) -> (r: Result<i64>)
        ensures
            r == value_of(vlong_decode(old(self).remaining(), false)),
            (r is Ok) ==> final(self).remaining() == old(self).remaining().skip(
                consumed(vlong_decode(old(self).remaining(), false)) as int,
            ),
    {
        self.read_vlong_ex(false)
    }

    /// Reads a vlong: as a vint, over at most nine bytes of seven bits; when
    /// `negative_allowed`, a tenth byte of 0 or 1 may give bit 63.
    fn read_vlong_ex(&mut self, negative_allowed: bool) -> (r: Result<i64>)
        ensures
            r == value_of(vlong_decode(old(self).remaining(), negative_allowed)),
            (r is Ok) ==> final(self).remaining() == old(self).remaining().skip(
                consumed(vlong_decode(old(self).remaining(), negative_allowed)) as int,
            ),
    {
        let ghost s = self.remaining();
        let mut value: u64 = 0;
        let mut mult: u64 = 1;
        let mut k: usize = 0;
        proof {
            lemma_pow128_values();
        }
        while k < 9
            invariant
                s == old(self).remaining(),
                k <= 9,
                k <= s.len(),
                self.remaining() == s.skip(k as int),
                value == group_sum(s, k as nat),
                k < 9 ==> mult == pow128(k as nat),
                forall|j: int| 0 <= j < k ==> s[j] >= 128,
                pow128(9) == 0x8000_0000_0000_0000,
                forall|j: nat| j <= 9 ==> #[trigger] pow128(j) <= 0x8000_0000_0000_0000,
            decreases 9 - k,
        {
            proof {
                lemma_stop_at_skip(s, k as nat, 9);
                lemma_group_sum_bound(s, k as nat);
                lemma_group_sum_bound(s, (k + 1) as nat);
            }
            let b = self.read_byte()?;
            proof {
                assert(s.skip(k as int).drop_first() =~= s.skip(k + 1));
            }
            value = value + (b % 128) as u64 * mult;
            if b < 128 {
                return Ok(value as i64);
            }
            if k < 8 {
                mult = mult * 128;
            }
            k = k + 1;
        }
        proof {
            lemma_stop_at_skip(s, 9, 9);
            lemma_group_sum_bound(s, 9);
        }
        if !negative_allowed {
            return Err(ErrorKind::IllegalState);
        }
        let b = self.read_byte()?;
        proof {
            assert(s.skip(9).drop_first() =~= s.skip(10));
        }
        if b == 0 || b == 1 {
            Ok(u64_as_i64(value + b as u64 * 0x8000_0000_0000_0000))
        } else {
            Err(ErrorKind::IllegalState)
        }
    }

    /// Reads a zig-zag coded vlong, with the sign byte allowed.
    fn read_zlong(&mut self) -> (r: Result<i64>)
        ensures
            r == value_of(zlong_decode(old(self).remaining())),
            (r is Ok) ==> final(self).remaining() == old(self).remaining().skip(
                consumed(zlong_decode(old(self).remaining())) as int,
            ),
    {
        let v = self.read_vlong_ex(true)?;
        Ok(zigzag_decode_i64(i64_as_u64(v)))
    }

    /// Reads a string: a vint byte length, which must not be negative, then
    /// that many bytes of UTF-8.
    fn read_string(&mut self) -> (r: Result<String>)
        ensures
            (r is Ok) == (string_decode(old(self).remaining()) is Ok),
            (r is Err) ==> r == Err::<String, ErrorKind>(string_decode(old(self).remaining())->Err_0),
            (r is Ok) ==> r->Ok_0@ == string_decode(old(self).remaining())->Ok_0.0,
            (r is Ok) ==> final(self).remaining() == old(self).remaining().skip(
                consumed(string_decode(old(self).remaining())) as int,
            ),
    {
        let ghost s = self.remaining();
        let length = self.read_vint()?;
        if length < 0 {
            return Err(ErrorKind::IllegalState);
        }
        let length = length as usize;
        let mut buffer: Vec<u8> = vec![0u8; length];
        let ghost n = consumed(vint_decode(s));
        self.read_bytes(buffer.as_mut_slice(), 0, length)?;
        proof {
            assert(buffer@ =~= s.subrange(n as int, n + length));
            assert(s.skip(n as int).skip(length as int) =~= s.skip(n + length));
        }
        match string_from_utf8(buffer) {
            Some(text) => Ok(text),
            None => Err(ErrorKind::IllegalState),
        }
    }

    /// Reads a map of strings: a vint count, which must not be negative, then
    /// that many key and value strings; a later key replaces an earlier one.
    fn read_map_of_strings(&mut self) -> (r: Result<HashMap<String, String>>)
        ensures
            (r is Ok) == (counted_strings_decode(old(self).remaining(), 2) is Ok),
            (r is Err) ==> r == Err::<HashMap<String, String>, ErrorKind>(
                counted_strings_decode(old(self).remaining(), 2)->Err_0,
            ),
            (r is Ok) ==> final(self).remaining() == old(self).remaining().skip(
                consumed(counted_strings_decode(old(self).remaining(), 2)) as int,
            ),
            obeys_key_model::<String>() && (r is Ok) ==> holds_pairs(
                r->Ok_0@,
                counted_strings_decode(old(self).remaining(), 2)->Ok_0.0,
            ),
            value_of(count_decode(old(self).remaining())) == Ok::<i32, ErrorKind>(0i32) ==> (r is Ok),
            value_of(count_decode(old(self).remaining())) == Ok::<i32, ErrorKind>(0i32) ==> (
            r->Ok_0@.len() == 0),
    {
        let ghost s = self.remaining();
        let count = self.read_vint()?;
        if count < 0 {
            return Err(ErrorKind::IllegalState);
        }
        let ghost mut got: Seq<Seq<char>> = Seq::empty();
        let ghost mut p: nat = consumed(vint_decode(s));
        proof {
            assert(Seq::<Seq<char>>::empty() + got =~= got);
        }
        let mut map: HashMap<String, String> = HashMap::new();
        let mut i: i32 = 0;
        while i < count
            invariant
                0 <= i <= count,
                count == 0 ==> map@.len() == 0,
                value_of(count_decode(old(self).remaining())) == Ok::<i32, ErrorKind>(count),
                s == old(self).remaining(),
                p <= s.len(),
                self.remaining() == s.skip(p as int),
                got.len() == 2 * i,
                obeys_key_model::<String>() ==> holds_pairs(map@, got),
                counted_strings_decode(s, 2) == prepend(
                    got,
                    p,
                    strings_decode(s.skip(p as int), (2 * (count - i)) as nat),
                ),
            decreases count - i,
        {
            let ghost old_got = got;
            proof {
                lemma_strings_step(s, (2 * (count - i)) as nat, got, p);
            }
            let k = self.read_string()?;
            proof {
                let d = string_decode(s.skip(p as int));
                got = got.push(d->Ok_0.0);
                p = p + d->Ok_0.1;
                lemma_strings_step(s, (2 * (count - i) - 1) as nat, got, p);
            }
            let v = self.read_string()?;
            let ghost old_map = map@;
            proof {
                let d = string_decode(s.skip(p as int));
                got = got.push(d->Ok_0.0);
                p = p + d->Ok_0.1;
                broadcast use axiom_random_state_builds_valid_hashers;
            }
            map.insert(k, v);
            proof {
                if obeys_key_model::<String>() {
                    assert(map@ == old_map.insert(k, v));
                    let n = old_got.len() as int;
                    assert(got[n] == k@ && got[n + 1] == v@);
                    assert forall|x: String| #[trigger] map@.contains_key(x) implies exists|j: int|
                        0 <= j < got.len() / 2 && #[trigger] got[2 * j] == x@ && got[2 * j + 1]
                            == map@[x]@ by {
                        if x == k {
                            assert(got[2 * i] == x@ && got[2 * i + 1] == map@[x]@);
                        } else {
                            let j = choose|j: int|
                                0 <= j < old_got.len() / 2 && #[trigger] old_got[2 * j] == x@
                                    && old_got[2 * j + 1] == old_map[x]@;
                            assert(got[2 * j] == x@ && got[2 * j + 1] == map@[x]@);
                        }
                    }
                    assert forall|j: int| 0 <= j < got.len() / 2 implies exists|x: String|
                        map@.contains_key(x) && x@ == #[trigger] got[2 * j] by {
                        if j == i {
                            assert(map@.contains_key(k));
                        } else {
                            assert(got[2 * j] == old_got[2 * j]);
                            let x = choose|x: String| old_map.contains_key(x) && x@ == old_got[2 * j];
                            assert(map@.contains_key(x));
                        }
                    }
                }
            }
            i = i + 1;
        }
        proof {
            assert(got + Seq::<Seq<char>>::empty() =~= got);
        }
        Ok(map)
    }

    /// Reads a set of strings: a vint count, which must not be negative, then
    /// that many strings; repeated strings collapse.
    fn read_set_of_strings(&mut self) -> (r: Result<HashSet<String>>)
        ensures
            (r is Ok) == (counted_strings_decode(old(self).remaining(), 1) is Ok),
            (r is Err) ==> r == Err::<HashSet<String>, ErrorKind>(
                counted_strings_decode(old(self).remaining(), 1)->Err_0,
            ),
            (r is Ok) ==> final(self).remaining() == old(self).remaining().skip(
                consumed(counted_strings_decode(old(self).remaining(), 1)) as int,
            ),
            obeys_key_model::<String>() && (r is Ok) ==> holds_exactly(
                r->Ok_0@,
                counted_strings_decode(old(self).remaining(), 1)->Ok_0.0,
            ),
            value_of(count_decode(old(self).remaining())) == Ok::<i32, ErrorKind>(0i32) ==> (r is Ok),
            value_of(count_decode(old(self).remaining())) == Ok::<i32, ErrorKind>(0i32) ==> (
            r->Ok_0@.len() == 0),
    {
        let ghost s = self.remaining();
        let count = self.read_vint()?;
        if count < 0 {
            return Err(ErrorKind::IllegalState);
        }
        let ghost mut got: Seq<Seq<char>> = Seq::empty();
        let ghost mut p: nat = consumed(vint_decode(s));
        proof {
            assert(Seq::<Seq<char>>::empty() + got =~= got);
        }
        let mut set: HashSet<String> = HashSet::new();
        let mut i: i32 = 0;
        while i < count
            invariant
                0 <= i <= count,
                count == 0 ==> set@.len() == 0,
                value_of(count_decode(old(self).remaining())) == Ok::<i32, ErrorKind>(count),
                s == old(self).remaining(),
                p <= s.len(),
                self.remaining() == s.skip(p as int),
                obeys_key_model::<String>() ==> holds_exactly(set@, got),
                counted_strings_decode(s, 1) == prepend(
                    got,
                    p,
                    strings_decode(s.skip(p as int), (1 * (count - i)) as nat),
                ),
            decreases count - i,
        {
            proof {
                lemma_strings_step(s, (count - i) as nat, got, p);
            }
            let k = self.read_string()?;
            let ghost old_set = set@;
            let ghost old_got = got;
            proof {
                let d = string_decode(s.skip(p as int));
                got = got.push(d->Ok_0.0);
                p = p + d->Ok_0.1;
                broadcast use axiom_random_state_builds_valid_hashers;
            }
            set.insert(k);
            proof {
                if obeys_key_model::<String>() {
                    assert(set@ == old_set.insert(k));
                    assert forall|x: String| #[trigger] set@.contains(x) implies exists|j: int|
                        0 <= j < got.len() && got[j] == x@ by {
                        if x == k {
                            assert(got[got.len() - 1] == x@);
                        } else {
                            let j = choose|j: int| 0 <= j < old_got.len() && old_got[j] == x@;
                            assert(got[j] == x@);
                        }
                    }
                    assert forall|j: int| 0 <= j < got.len() implies exists|x: String|
                        set@.contains(x) && x@ == #[trigger] got[j] by {
                        if j == got.len() - 1 {
                            assert(set@.contains(k));
                        } else {
                            assert(got[j] == old_got[j]);
                            let x = choose|x: String| old_set.contains(x) && x@ == old_got[j];
                            assert(set@.contains(x));
                        }
                    }
                }
            }
            i = i + 1;
        }
        proof {
            assert(got + Seq::<Seq<char>>::empty() =~= got);
        }
        Ok(set)
    }

    /// Discards the next `count` bytes, reading them through a scratch buffer
    /// of a fixed size.
    fn skip_bytes(&mut self, count: usize) -> (r: Result<()>)
        ensures
            old(self).remaining().len() < count ==> r == Err::<(), ErrorKind>(ErrorKind::UnexpectedEOF),
            old(self).remaining().len() >= count ==> r == Ok::<(), ErrorKind>(()),
            (r is Ok) ==> final(self).remaining() == old(self).remaining().skip(count as int),
    {
        let ghost s = self.remaining();
        let mut skip_buffer: Vec<u8> = vec![0u8; SKIP_BUFFER_SIZE];
        let mut skipped: usize = 0;
        while skipped < count
            invariant
                s == old(self).remaining(),
                skipped <= count,
                skipped <= s.len(),
                skip_buffer@.len() == SKIP_BUFFER_SIZE,
                self.remaining() == s.skip(skipped as int),
            decreases count - skipped,
        {
            let step = if SKIP_BUFFER_SIZE < count - skipped {
                SKIP_BUFFER_SIZE
            } else {
                count - skipped
            };
            self.read_bytes(skip_buffer.as_mut_slice(), 0, step)?;
            proof {
                assert(s.skip(skipped as int).skip(step as int) =~= s.skip(skipped + step));
            }
            skipped = skipped + step;
        }
        Ok(())
    }

    /// Reads a big-endian 16-bit integer.
    fn read_short(&mut self) -> (r: Result<i16>)
        ensures
            old(self).remaining().len() < 2 ==> r == Err::<i16, ErrorKind>(ErrorKind::UnexpectedEOF),
            old(self).remaining().len() >= 2 ==> r == Ok::<i16, ErrorKind>(
                signed(be_value(old(self).remaining(), 2), 16) as i16,
            ),
            old(self).remaining().len() >= 2 ==> final(self).remaining() == old(
                self,
            ).remaining().skip(2),
    {
        let ghost s = self.remaining();
        let b0 = self.read_byte()?;
        let b1 = self.read_byte()?;
        proof {
            assert(s.skip(1).drop_first() =~= s.skip(2));
            reveal_with_fuel(be_value, 3);
        }
        Ok(u16_as_i16((b0 as u16) * 256 + b1 as u16))
    }

    /// Reads a big-endian 32-bit integer.
    fn read_int(&mut self) -> (r: Result<i32>)
        ensures
            old(self).remaining().len() < 4 ==> r == Err::<i32, ErrorKind>(ErrorKind::UnexpectedEOF),
            old(self).remaining().len() >= 4 ==> r == Ok::<i32, ErrorKind>(
                signed(be_value(old(self).remaining(), 4), 32) as i32,
            ),
            old(self).remaining().len() >= 4 ==> final(self).remaining() == old(
                self,
            ).remaining().skip(4),
    {
        let ghost s = self.remaining();
        let mut v: u32 = 0;
        let mut k: usize = 0;
        while k < 4
            invariant
                s == old(self).remaining(),
                k <= 4,
                k <= s.len(),
                self.remaining() == s.skip(k as int),
                v == be_value(s, k as nat),
                v < pow256(k as nat),
            decreases 4 - k,
        {
            let b = self.read_byte()?;
            proof {
                assert(s.skip(k as int).drop_first() =~= s.skip(k + 1));
                assert(v * 256 + b < pow256((k + 1) as nat)) by (nonlinear_arith)
                    requires
                        v < pow256(k as nat),
                        b < 256,
                        pow256((k + 1) as nat) == 256 * pow256(k as nat),
                ;
                reveal_with_fuel(pow256, 5);
            }
            v = v * 256 + b as u32;
            k = k + 1;
        }
        Ok(u32_as_i32(v))
    }

    /// Reads a big-endian 64-bit integer: two 32-bit integers, high first.
    fn read_long(&mut self) -> (r: Result<i64>)
        ensures
            old(self).remaining().len() < 8 ==> r == Err::<i64, ErrorKind>(ErrorKind::UnexpectedEOF),
            old(self).remaining().len() >= 8 ==> r == Ok::<i64, ErrorKind>(
                signed(be_value(old(self).remaining(), 8), 64) as i64,
            ),
            old(self).remaining().len() >= 8 ==> final(self).remaining() == old(
                self,
            ).remaining().skip(8),
    {
        let ghost s = self.remaining();
        let hi = self.read_int()?;
        let lo = self.read_int()?;
        let hi_bits = i32_as_u32(hi) as u64;
        let lo_bits = i32_as_u32(lo) as u64;
        proof {
            assert(s.skip(4).skip(4) =~= s.skip(8));
            lemma_be_split(s);
            lemma_be_bound(s, 4);
            lemma_be_bound(s.skip(4), 4);
            reveal_with_fuel(pow256, 5);
        }
        Ok(u64_as_i64(hi_bits * 0x1_0000_0000 + lo_bits))
    }
}

/// `256^k`.
pub open spec fn pow256(k: nat) -> nat
    decreases k,
{
    if k == 0 {
        1
    } else {
        256 * pow256((k - 1) as nat)
    }
}

proof fn lemma_be_bound(s: Seq<u8>, n: nat)
    requires
        n <= s.len(),
    ensures
        be_value(s, n) < pow256(n),
    decreases n,
{
    if n > 0 {
        lemma_be_bound(s, (n - 1) as nat);
        let m = (n - 1) as nat;
        assert(be_value(s, n) < pow256(n)) by (nonlinear_arith)
            requires
                be_value(s, n) == be_value(s, m) * 256 + s[m as int] as nat,
                be_value(s, m) < pow256(m),
                s[m as int] < 256,
                pow256(n) == 256 * pow256(m),
        ;
    }
}

proof fn lemma_be_split(s: Seq<u8>)
    requires
        s.len() >= 8,
    ensures
        be_value(s, 8) == be_value(s, 4) * 0x1_0000_0000 + be_value(s.skip(4), 4),
{
    reveal_with_fuel(be_value, 9);
}

/// An input over bytes held in memory.
pub struct BytesInput {
    data: Vec<u8>,
    pos: usize,
}

impl BytesInput {
    /// An input that gives the bytes of `data`, from the first.
    pub fn new(data: Vec<u8>) -> (r: BytesInput)
        ensures
            r.remaining() == data@,
    {
        let r = BytesInput { data, pos: 0 };
        assert(r.data@.skip(0) =~= r.data@);
        r
    }

    /// The number of bytes not read yet.
    pub fn available(&self) -> (r: usize)
        ensures
            r == self.remaining().len(),
    {
        if self.pos <= self.data.len() {
            self.data.len() - self.pos
        } else {
            0
        }
    }
}

impl DataInput for BytesInput {
    closed spec fn remaining(&self) -> Seq<u8> {
        if self.pos <= self.data.len() {
            self.data@.skip(self.pos as int)
        } else {
            Seq::empty()
        }
    }

    fn read_byte(&mut self) -> (r: Result<u8>) {
        if self.pos >= self.data.len() {
            return Err(ErrorKind::UnexpectedEOF);
        }
        let b = self.data[self.pos];
        self.pos = self.pos + 1;
        assert(old(self).remaining().drop_first() =~= self.remaining());
        Ok(b)
    }
}

} // verus!
