//! Hexadecimal and URL-safe base64 text of symbols, computed by the `hex` and
//! `base64` crates.
use vstd::prelude::*;
use crate::error::EvalError;
use crate::list_helpers::{self, expr_symbol_content};
use crate::pure::{self, res_view, args_ok};
use crate::expr;

verus! {

/// `hex::FromHexError`, the error of the `hex` calls, carried through unread.
#[verifier::external_type_specification]
#[verifier::external_body]
pub struct ExFromHexError(hex::FromHexError);

/// `base64::EncodeSliceError`, the error of `encode_slice`, carried through unread.
#[verifier::external_type_specification]
#[verifier::external_body]
pub struct ExEncodeSliceError(base64::EncodeSliceError);

/// `base64::DecodeError`, the error of `decode_slice_unchecked`, carried through unread.
#[verifier::external_type_specification]
#[verifier::external_body]
pub struct ExDecodeError(base64::DecodeError);

/// The lowercase hexadecimal digit of `d < 16`.
pub open spec fn hex_digit(d: nat) -> u8 {
    if d < 10 { (48 + d) as u8 } else { (87 + d) as u8 }
}

/// The lowercase hexadecimal text of `s`, two digits a byte, high digit first.
pub open spec fn hex_lower(s: Seq<u8>) -> Seq<u8>
    decreases s.len(),
{
    if s.len() == 0 {
        Seq::empty()
    } else {
        seq![hex_digit((s[0] / 16) as nat), hex_digit((s[0] % 16) as nat)] + hex_lower(s.drop_first())
    }
}

/// The value of a hexadecimal digit, either case.
pub open spec fn hex_val(c: u8) -> Option<nat> {
    if 65 <= c <= 70 {
        Some((c - 55) as nat)
    } else if 97 <= c <= 102 {
        Some((c - 87) as nat)
    } else if 48 <= c <= 57 {
        Some((c - 48) as nat)
    } else {
        None
    }
}

/// The bytes that the hexadecimal text `d` (of even length) spells, or `None`
/// when one of its bytes is no hexadecimal digit.
pub open spec fn hex_decoded(d: Seq<u8>) -> Option<Seq<u8>>
    decreases d.len(),
{
    if d.len() < 2 {
        Some(Seq::empty())
    } else {
        match (hex_val(d[0]), hex_val(d[1]), hex_decoded(d.skip(2))) {
            (Some(h), Some(l), Some(rest)) => Some(seq![(h * 16 + l) as u8] + rest),
            _ => None,
        }
    }
}

/// `hex::encode_to_slice` writes the lowercase hexadecimal text of `input` into a
/// buffer of exactly twice its length; for any other length it fails and writes
/// nothing.
#[verifier::external_body]
fn hex_encode_to_slice(input: &[u8], output: &mut Vec<u8>) -> (r: Result<(), hex::FromHexError>)
    ensures
        final(output)@.len() == old(output)@.len(),
        input@.len() * 2 == old(output)@.len() ==> r is Ok && final(output)@ == hex_lower(input@),
        input@.len() * 2 != old(output)@.len() ==> r is Err && final(output)@ == old(output)@,
{
    hex::encode_to_slice(input, output.as_mut_slice())
}

/// `hex::decode_to_slice` decodes a text of even length into a buffer of exactly
/// half its length; it fails on an odd length, another buffer length, or a byte
/// that is no hexadecimal digit (either case).
#[verifier::external_body]
fn hex_decode_to_slice(data: &[u8], out: &mut Vec<u8>) -> (r: Result<(), hex::FromHexError>)
    ensures
        final(out)@.len() == old(out)@.len(),
        data@.len() % 2 != 0 ==> r is Err,
        data@.len() % 2 == 0 && data@.len() / 2 != old(out)@.len() ==> r is Err,
        data@.len() % 2 == 0 && data@.len() / 2 == old(out)@.len() ==> match hex_decoded(data@) {
            Some(v) => r is Ok && final(out)@ == v,
            None => r is Err,
        },
{
    hex::decode_to_slice(data, out.as_mut_slice())
}

/// The URL-safe base64 digit of `v < 64`.
pub open spec fn b64_char(v: nat) -> u8 {
    if v < 26 {
        (65 + v) as u8
    } else if v < 52 {
        (71 + v) as u8
    } else if v < 62 {
        (v - 4) as u8
    } else if v == 62 {
        45
    } else {
        95
    }
}

/// The URL-safe base64 text of `s`, without padding: each three bytes become four
/// digits of six bits, high bits first; a last one or two bytes become two or
/// three digits, the unused low bits zero.
pub open spec fn b64url(s: Seq<u8>) -> Seq<u8>
    decreases s.len(),
{
    if s.len() >= 3 {
        seq![
            b64_char((s[0] / 4) as nat),
            b64_char(((s[0] % 4) * 16 + s[1] / 16) as nat),
            b64_char(((s[1] % 16) * 4 + s[2] / 64) as nat),
            b64_char((s[2] % 64) as nat),
        ] + b64url(s.skip(3))
    } else if s.len() == 2 {
        seq![
            b64_char((s[0] / 4) as nat),
            b64_char(((s[0] % 4) * 16 + s[1] / 16) as nat),
            b64_char(((s[1] % 16) * 4) as nat),
        ]
    } else if s.len() == 1 {
        seq![b64_char((s[0] / 4) as nat), b64_char(((s[0] % 4) * 16) as nat)]
    } else {
        Seq::empty()
    }
}

/// The length of the unpadded base64 text of `n` bytes.
pub open spec fn b64_len(n: nat) -> nat {
    4 * (n / 3) + if n % 3 == 0 { 0 } else { n % 3 + 1 }
}

/// The URL-safe base64 digits of distinct values below 64 differ.
proof fn lemma_b64_char_injective(v: nat, w: nat)
    requires
        v < 64,
        w < 64,
        b64_char(v) == b64_char(w),
    ensures
        v == w,
{
}

/// The unpadded base64 text of `n` bytes has `b64_len(n)` digits.
pub proof fn lemma_b64url_len(s: Seq<u8>)
    ensures
        b64url(s).len() == b64_len(s.len()),
    decreases s.len(),
{
    if s.len() >= 3 {
        lemma_b64url_len(s.skip(3));
        assert(b64_len(s.len()) == 4 + b64_len((s.len() - 3) as nat));
    }
}

/// Three bytes are told apart by their four base64 digits.
proof fn lemma_b64_triple(a0: u8, a1: u8, a2: u8, b0: u8, b1: u8, b2: u8)
    requires
        a0 / 4 == b0 / 4,
        (a0 % 4) * 16 + a1 / 16 == (b0 % 4) * 16 + b1 / 16,
        (a1 % 16) * 4 + a2 / 64 == (b1 % 16) * 4 + b2 / 64,
        a2 % 64 == b2 % 64,
    ensures
        a0 == b0 && a1 == b1 && a2 == b2,
{
    assert(a0 % 4 == b0 % 4 && a1 / 16 == b1 / 16);
    assert(a1 % 16 == b1 % 16 && a2 / 64 == b2 / 64);
}

/// Distinct byte strings have distinct unpadded base64 texts.
pub proof fn lemma_b64url_injective(a: Seq<u8>, b: Seq<u8>)
    requires
        b64url(a) == b64url(b),
    ensures
        a == b,
    decreases a.len(),
{
    lemma_b64url_len(a);
    lemma_b64url_len(b);
    assert(a.len() == b.len()) by {
        assert(b64_len(a.len()) == b64_len(b.len()));
        if a.len() != b.len() {
            assert(a.len() % 3 == b.len() % 3 || a.len() % 3 != b.len() % 3);
        }
    }
    let (ta, tb) = (b64url(a), b64url(b));
    if a.len() >= 3 {
        assert(ta[0] == tb[0] && ta[1] == tb[1] && ta[2] == tb[2] && ta[3] == tb[3]);
        lemma_b64_char_injective((a[0] / 4) as nat, (b[0] / 4) as nat);
        lemma_b64_char_injective(((a[0] % 4) * 16 + a[1] / 16) as nat, ((b[0] % 4) * 16 + b[1] / 16) as nat);
        lemma_b64_char_injective(((a[1] % 16) * 4 + a[2] / 64) as nat, ((b[1] % 16) * 4 + b[2] / 64) as nat);
        lemma_b64_char_injective((a[2] % 64) as nat, (b[2] % 64) as nat);
        lemma_b64_triple(a[0], a[1], a[2], b[0], b[1], b[2]);
        assert(ta.skip(4) =~= b64url(a.skip(3)));
        assert(tb.skip(4) =~= b64url(b.skip(3)));
        lemma_b64url_injective(a.skip(3), b.skip(3));
        assert(a =~= seq![a[0], a[1], a[2]] + a.skip(3));
        assert(b =~= seq![b[0], b[1], b[2]] + b.skip(3));
    } else if a.len() == 2 {
        assert(ta[0] == tb[0] && ta[1] == tb[1] && ta[2] == tb[2]);
        lemma_b64_char_injective((a[0] / 4) as nat, (b[0] / 4) as nat);
        lemma_b64_char_injective(((a[0] % 4) * 16 + a[1] / 16) as nat, ((b[0] % 4) * 16 + b[1] / 16) as nat);
        lemma_b64_char_injective(((a[1] % 16) * 4) as nat, ((b[1] % 16) * 4) as nat);
        lemma_b64_triple(a[0], a[1], 0, b[0], b[1], 0);
        assert(a =~= b);
    } else if a.len() == 1 {
        assert(ta[0] == tb[0] && ta[1] == tb[1]);
        lemma_b64_char_injective((a[0] / 4) as nat, (b[0] / 4) as nat);
        lemma_b64_char_injective(((a[0] % 4) * 16) as nat, ((b[0] % 4) * 16) as nat);
        lemma_b64_triple(a[0], 0, 0, b[0], 0, 0);
        assert(a =~= b);
    } else {
        assert(a =~= b);
    }
}

/// `URL_SAFE_NO_PAD.encode_slice` writes the unpadded URL-safe base64 text of
/// `input` at the start of `output` and returns its length; when `output` is
/// shorter than that it fails and writes nothing.
#[verifier::external_body]
fn b64_encode_slice(input: &[u8], output: &mut Vec<u8>) -> (r: Result<usize, base64::EncodeSliceError>)
    requires
        input@.len() < 64,
    ensures
        final(output)@.len() == old(output)@.len(),
        b64_len(input@.len() as nat) > old(output)@.len() ==> r is Err && final(output)@ == old(output)@,
        b64_len(input@.len() as nat) <= old(output)@.len() ==> (r matches Ok(n) && n == b64_len(input@.len() as nat))
            && final(output)@.take(b64_len(input@.len() as nat) as int) == b64url(input@)
            && final(output)@.skip(b64_len(input@.len() as nat) as int) == old(output)@.skip(
            b64_len(input@.len() as nat) as int),
{
    base64::Engine::encode_slice(&base64::engine::general_purpose::URL_SAFE_NO_PAD, input, output.as_mut_slice())
}

/// `URL_SAFE_NO_PAD.decode_slice_unchecked` decodes `input` into the start of
/// `output` and returns the number of bytes decoded. The engine decodes only the
/// canonical unpadded URL-safe text of some bytes (it refuses other bytes, padding,
/// a length of one more than a multiple of four, and set bits after the last byte),
/// so it succeeds exactly when `input` is `b64url` of some bytes, and then writes
/// bytes whose text `input` is. It panics when `output` is too small, so `input` is
/// held under 64 bytes and `output` at 64 bytes.
#[verifier::external_body]
fn b64_decode_slice_unchecked(input: &[u8], output: &mut Vec<u8>) -> (r: Result<usize, base64::DecodeError>)
    requires
        input@.len() < 64,
        old(output)@.len() == 64,
    ensures
        final(output)@.len() == 64,
        r is Ok <==> exists|s: Seq<u8>| #[trigger] b64url(s) == input@,
        r matches Ok(n) ==> n <= 64 && b64url(final(output)@.take(n as int)) == input@,
{
    base64::Engine::decode_slice_unchecked(&base64::engine::general_purpose::URL_SAFE_NO_PAD, input, output.as_mut_slice())
}

/// A buffer of `n` zero bytes.
pub fn zeros(n: usize) -> (r: Vec<u8>)
    ensures
        r@.len() == n,
{
    let mut r: Vec<u8> = Vec::new();
    let mut i: usize = 0;
    while i < n
        invariant
            i <= n,
            r@.len() == i,
        decreases n - i,
    {
        r.push(0);
        i = i + 1;
    }
    r
}

/// The first `n` bytes of `v`.
pub fn prefix(v: &Vec<u8>, n: usize) -> (r: Vec<u8>)
    requires
        n <= v@.len(),
    ensures
        r@ == v@.take(n as int),
{
    list_helpers::copy_range(v.as_slice(), 0, n)
}

/// The content of the only argument, which must be a symbol (see [pure::symbol_arg]).
pub fn one_symbol_arg(args: &Vec<Vec<u8>>) -> (r: Result<Vec<u8>, EvalError>)
    requires
        args_ok(args@),
    ensures
        res_view(r) == pure::symbol_arg(list_helpers::views(args@)),
        r matches Ok(s) ==> 0 < s@.len() < 64,
{
    if args.len() != 1 {
        return Err(EvalError::TakesOneArgument);
    }
    assert(expr::is_expr(list_helpers::views(args@)[0]));
    match expr_symbol_content(args[0].as_slice()) {
        Some(s) => {
            proof { list_helpers::lemma_symbol_len(args@[0]@); }
            Ok(s)
        },
        None => Err(EvalError::ExpectsSymbol),
    }
}

/// `(encode_hex s)`: the lowercase hexadecimal text of the bytes of `s`.
pub open spec fn spec_encode_hex(args: Seq<Seq<u8>>) -> Result<Seq<u8>, EvalError> {
    match pure::symbol_arg(args) {
        Ok(s) => Ok(hex_lower(s)),
        Err(e) => Err(e),
    }
}

/// `encode_hex` writes into 64 bytes: the symbol must not be longer than 32.
pub open spec fn encode_hex_fits(args: Seq<Seq<u8>>) -> bool {
    pure::symbol_arg(args) matches Ok(s) ==> s.len() <= 32
}

/// `(encode_hex s)`: the content of the symbol holding the lowercase hexadecimal
/// text of the bytes of `s`.
pub fn encode_hex(args: &Vec<Vec<u8>>) -> (r: Result<Vec<u8>, EvalError>)
    requires
        args_ok(args@),
        encode_hex_fits(list_helpers::views(args@)),
    ensures
        res_view(r) == spec_encode_hex(list_helpers::views(args@)),
{
    let symbol = one_symbol_arg(args)?;
    let mut buf = zeros(2 * symbol.len());
    match hex_encode_to_slice(symbol.as_slice(), &mut buf) {
        Ok(()) => Ok(buf),
        Err(_) => Err(EvalError::InvalidHex),
    }
}

/// `(decode_hex s)`: the bytes spelled by the hexadecimal text `s`.
pub open spec fn spec_decode_hex(args: Seq<Seq<u8>>) -> Result<Seq<u8>, EvalError> {
    match pure::symbol_arg(args) {
        Ok(s) => if s.len() % 2 != 0 {
            Err(EvalError::InvalidHex)
        } else {
            match hex_decoded(s) {
                Some(v) => Ok(v),
                None => Err(EvalError::InvalidHex),
            }
        },
        Err(e) => Err(e),
    }
}

/// `(decode_hex s)`: the content of the symbol holding the bytes spelled by the
/// hexadecimal text `s` (of even length, digits of either case).
pub fn decode_hex(args: &Vec<Vec<u8>>) -> (r: Result<Vec<u8>, EvalError>)
    requires
        args_ok(args@),
    ensures
        res_view(r) == spec_decode_hex(list_helpers::views(args@)),
{
    let symbol = one_symbol_arg(args)?;
    let mut buf = zeros((symbol.len() + 1) / 2);
    match hex_decode_to_slice(symbol.as_slice(), &mut buf) {
        Ok(()) => Ok(buf),
        Err(_) => Err(EvalError::InvalidHex),
    }
}

/// `(encode_base64url s)`: the unpadded URL-safe base64 text of `s`, when it fits
/// in 64 bytes.
pub open spec fn spec_encode_base64url(args: Seq<Seq<u8>>) -> Result<Seq<u8>, EvalError> {
    match pure::symbol_arg(args) {
        Ok(s) => if b64_len(s.len()) > 64 { Err(EvalError::Base64TooLong) } else { Ok(b64url(s)) },
        Err(e) => Err(e),
    }
}

/// `(encode_base64url s)`: the content of the symbol holding the unpadded
/// URL-safe base64 text of `s`, which must fit in 64 bytes.
pub fn encode_base64url(args: &Vec<Vec<u8>>) -> (r: Result<Vec<u8>, EvalError>)
    requires
        args_ok(args@),
    ensures
        res_view(r) == spec_encode_base64url(list_helpers::views(args@)),
{
    let symbol = one_symbol_arg(args)?;
    let mut buf = zeros(64);
    match b64_encode_slice(symbol.as_slice(), &mut buf) {
        Ok(written) => Ok(prefix(&buf, written)),
        Err(_) => Err(EvalError::Base64TooLong),
    }
}

/// `(decode_base64url s)`: the bytes that the unpadded URL-safe base64 text `s`
/// decodes to.
pub open spec fn spec_decode_base64url(args: Seq<Seq<u8>>) -> Result<Seq<u8>, EvalError> {
    match pure::symbol_arg(args) {
        Ok(t) => if exists|s: Seq<u8>| #[trigger] b64url(s) == t {
            Ok(choose|s: Seq<u8>| #[trigger] b64url(s) == t)
        } else {
            Err(EvalError::InvalidBase64)
        },
        Err(e) => Err(e),
    }
}

/// `(decode_base64url s)`: the content of the symbol holding the bytes that the
/// unpadded URL-safe base64 text `s` decodes to.
pub fn decode_base64url(args: &Vec<Vec<u8>>) -> (r: Result<Vec<u8>, EvalError>)
    requires
        args_ok(args@),
    ensures
        res_view(r) == spec_decode_base64url(list_helpers::views(args@)),
{
    let symbol = one_symbol_arg(args)?;
    let mut buf = zeros(64);
    match b64_decode_slice_unchecked(symbol.as_slice(), &mut buf) {
        Ok(written) => {
            let v = prefix(&buf, written);
            proof {
                let t = symbol@;
                let s = choose|s: Seq<u8>| #[trigger] b64url(s) == t;
                lemma_b64url_injective(v@, s);
            }
            Ok(v)
        },
        Err(_) => Err(EvalError::InvalidBase64),
    }
}

} // verus!
