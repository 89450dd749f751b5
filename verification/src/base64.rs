//! The base64 text filter (RFC 4648, standard alphabet, with padding).
//!
//! Three bytes become four characters. A body may be cut into chunks at any
//! place, so both directions keep what does not yet fill a group. On the way
//! in every group of four characters is read on its own: a padded group may
//! be followed by further groups, as a sender that flushes early writes them.

use vstd::prelude::*;
use vstd::slice::{slice_subrange, slice_to_vec};
use crate::errors::ClientError;
use crate::frame::append_bytes;

verus! {

/// The padding character, `=`.
pub const PAD: u8 = 61;

/// The character that stands for the six-bit value `v`.
#[verifier::opaque]
pub open spec fn symbol(v: int) -> u8 {
    if v < 26 {
        (v + 65) as u8
    } else if v < 52 {
        (v + 71) as u8
    } else if v < 62 {
        (v - 4) as u8
    } else if v == 62 {
        43u8
    } else {
        47u8
    }
}

/// Whether `c` is a character of the alphabet: a letter, a digit, `+` or `/`.
#[verifier::opaque]
pub open spec fn is_symbol(c: u8) -> bool {
    65 <= c <= 90 || 97 <= c <= 122 || 48 <= c <= 57 || c == 43 || c == 47
}

/// The six-bit value that the character `c` stands for.
#[verifier::opaque]
pub open spec fn value(c: u8) -> int {
    if 65 <= c <= 90 {
        c - 65
    } else if 97 <= c <= 122 {
        c - 71
    } else if 48 <= c <= 57 {
        c + 4
    } else if c == 43 {
        62
    } else {
        63
    }
}

/// The four characters for one group of one, two or three bytes.
pub open spec fn encode_group(data: Seq<u8>) -> Seq<u8> {
    let a = data[0] as int;
    let b = if data.len() > 1 { data[1] as int } else { 0 };
    let c = if data.len() > 2 { data[2] as int } else { 0 };
    let n = a * 65536 + b * 256 + c;
    seq![
        symbol(n / 262144),
        symbol((n / 4096) % 64),
        if data.len() > 1 { symbol((n / 64) % 64) } else { PAD },
        if data.len() > 2 { symbol(n % 64) } else { PAD },
    ]
}

/// The base64 text of `data`; the last group is padded where `data` does not
/// end on a multiple of three.
pub open spec fn encode_text(data: Seq<u8>) -> Seq<u8>
    decreases data.len(),
{
    if data.len() == 0 {
        Seq::empty()
    } else if data.len() < 3 {
        encode_group(data)
    } else {
        encode_group(data.take(3)) + encode_text(data.skip(3))
    }
}

/// The number of bytes that a group of four characters stands for, or 0
/// where the group is not valid: a character outside the alphabet, padding
/// in the wrong place, or stray bits before the padding.
pub open spec fn group_len(g: Seq<u8>) -> int {
    if is_symbol(g[0]) && is_symbol(g[1]) {
        if is_symbol(g[2]) {
            if is_symbol(g[3]) {
                3
            } else if g[3] == PAD && value(g[2]) % 4 == 0 {
                2
            } else {
                0
            }
        } else if g[2] == PAD && g[3] == PAD && value(g[1]) % 16 == 0 {
            1
        } else {
            0
        }
    } else {
        0
    }
}

/// The bytes that a valid group of four characters stands for.
pub open spec fn decode_group(g: Seq<u8>) -> Seq<u8> {
    let v2 = if is_symbol(g[2]) { value(g[2]) } else { 0 };
    let v3 = if is_symbol(g[3]) { value(g[3]) } else { 0 };
    let n = value(g[0]) * 262144 + value(g[1]) * 4096 + v2 * 64 + v3;
    seq![(n / 65536) as u8, ((n / 256) % 256) as u8, (n % 256) as u8].take(group_len(g))
}

/// Whether every complete group of `text` is valid.
pub open spec fn groups_ok(text: Seq<u8>) -> bool
    decreases text.len(),
{
    if text.len() < 4 {
        true
    } else {
        group_len(text.take(4)) > 0 && groups_ok(text.skip(4))
    }
}

/// The bytes that the complete groups of `text` stand for.
pub open spec fn groups_bytes(text: Seq<u8>) -> Seq<u8>
    decreases text.len(),
{
    if text.len() < 4 {
        Seq::empty()
    } else {
        decode_group(text.take(4)) + groups_bytes(text.skip(4))
    }
}

/// The characters of `text` behind its last complete group: at most three.
pub open spec fn leftover(text: Seq<u8>) -> Seq<u8>
    decreases text.len(),
{
    if text.len() < 4 {
        text
    } else {
        leftover(text.skip(4))
    }
}

/// Each value has its own character, and the character gives the value back.
pub proof fn lemma_symbol_value(v: int)
    requires
        0 <= v < 64,
    ensures
        is_symbol(symbol(v)),
        value(symbol(v)) == v,
        symbol(v) != PAD,
{
    reveal(symbol);
    reveal(is_symbol);
    reveal(value);
}

/// The value of a character of the alphabet has six bits, and padding is
/// no character of the alphabet.
pub proof fn lemma_value_range(c: u8)
    ensures
        is_symbol(c) ==> 0 <= value(c) < 64 && symbol(value(c)) == c,
        !is_symbol(PAD),
{
    reveal(symbol);
    reveal(is_symbol);
    reveal(value);
}

/// Three bytes and four six-bit values hold the same 24 bits.
pub proof fn lemma_regroup(a: u32, b: u32, c: u32)
    by (bit_vector)
    requires
        a < 256,
        b < 256,
        c < 256,
    ensures
        ({
            let n = a * 65536 + b * 256 + c;
            let s0 = n / 262144;
            let s1 = (n / 4096) % 64;
            let s2 = (n / 64) % 64;
            let s3 = n % 64;
            &&& s0 < 64 && s1 < 64 && s2 < 64 && s3 < 64
            &&& s0 * 262144 + s1 * 4096 + s2 * 64 + s3 == n
            &&& n / 65536 == a && (n / 256) % 256 == b && n % 256 == c
            &&& (c == 0 ==> s3 == 0 && s2 % 4 == 0)
            &&& (b == 0 && c == 0 ==> s2 == 0 && s1 % 16 == 0)
        }),
{
}

/// A group of four characters in front of `rest` is read on its own.
pub proof fn lemma_groups_cons(g: Seq<u8>, rest: Seq<u8>)
    requires
        g.len() == 4,
    ensures
        groups_ok(g + rest) <==> group_len(g) > 0 && groups_ok(rest),
        groups_bytes(g + rest) == decode_group(g) + groups_bytes(rest),
        leftover(g + rest) == leftover(rest),
{
    assert((g + rest).take(4) == g);
    assert((g + rest).skip(4) == rest);
}

/// A group that was written is valid and reads back as the bytes it was
/// written from.
pub proof fn lemma_group_round_trip(data: Seq<u8>)
    requires
        1 <= data.len() <= 3,
    ensures
        encode_group(data).len() == 4,
        group_len(encode_group(data)) == data.len(),
        decode_group(encode_group(data)) == data,
{
    let a = data[0] as int;
    let b = if data.len() > 1 { data[1] as int } else { 0 };
    let c = if data.len() > 2 { data[2] as int } else { 0 };
    let n = a * 65536 + b * 256 + c;
    let s0 = n / 262144;
    let s1 = (n / 4096) % 64;
    let s2 = (n / 64) % 64;
    let s3 = n % 64;
    lemma_regroup(a as u32, b as u32, c as u32);
    lemma_symbol_value(s0);
    lemma_symbol_value(s1);
    lemma_symbol_value(s2);
    lemma_symbol_value(s3);
    lemma_value_range(PAD);
    let g = encode_group(data);
    assert(g[0] == symbol(s0) && g[1] == symbol(s1));
    assert(group_len(g) == data.len());
    let v2 = if is_symbol(g[2]) { value(g[2]) } else { 0 };
    let v3 = if is_symbol(g[3]) { value(g[3]) } else { 0 };
    assert(v2 == s2 && v3 == s3);
    assert(decode_group(g) =~= data);
}

/// The text of `data` is made of valid groups only, and reading it gives
/// `data` back.
pub proof fn lemma_text_round_trip(data: Seq<u8>)
    ensures
        encode_text(data).len() % 4 == 0,
        groups_ok(encode_text(data)),
        groups_bytes(encode_text(data)) == data,
        leftover(encode_text(data)) == Seq::<u8>::empty(),
    decreases data.len(),
{
    if data.len() == 0 {
    } else if data.len() < 3 {
        lemma_group_round_trip(data);
        let g = encode_group(data);
        lemma_groups_cons(g, Seq::<u8>::empty());
        assert(g + Seq::<u8>::empty() == g);
        assert(decode_group(g) + Seq::<u8>::empty() == decode_group(g));
    } else {
        let head = data.take(3);
        let rest = data.skip(3);
        lemma_group_round_trip(head);
        lemma_text_round_trip(rest);
        lemma_groups_cons(encode_group(head), encode_text(rest));
        assert(head + rest == data);
    }
}

/// Reading text is indifferent to where it is cut: the groups of `a + b` are
/// the groups of `a` followed by the groups of what `a` left over together
/// with `b`.
pub proof fn lemma_groups_split(a: Seq<u8>, b: Seq<u8>)
    ensures
        groups_ok(a + b) <==> groups_ok(a) && groups_ok(leftover(a) + b),
        groups_bytes(a + b) == groups_bytes(a) + groups_bytes(leftover(a) + b),
        leftover(a + b) == leftover(leftover(a) + b),
    decreases a.len(),
{
    if a.len() >= 4 {
        assert((a + b).take(4) == a.take(4));
        assert((a + b).skip(4) == a.skip(4) + b);
        lemma_groups_split(a.skip(4), b);
        assert(groups_bytes(a + b) == decode_group(a.take(4)) + (groups_bytes(a.skip(4))
            + groups_bytes(leftover(a) + b)));
    } else {
        lemma_leftover_short(a + b);
    }
}

/// What is left over is shorter than a group and has itself nothing left
/// to read.
pub proof fn lemma_leftover_short(text: Seq<u8>)
    ensures
        leftover(text).len() == text.len() % 4,
        leftover(text) == text.skip(text.len() - text.len() % 4),
        leftover(leftover(text)) == leftover(text),
    decreases text.len(),
{
    if text.len() >= 4 {
        lemma_leftover_short(text.skip(4));
        let k = text.len() - text.len() % 4;
        assert(text.skip(4).skip(k - 4) == text.skip(k));
    } else {
        assert(text.skip(0) == text);
    }
}

/// Writing text group by group: the text of `a + b` is the text of `a`
/// followed by the text of `b` wherever `a` is made of whole groups.
pub proof fn lemma_encode_split(a: Seq<u8>, b: Seq<u8>)
    requires
        a.len() % 3 == 0,
    ensures
        encode_text(a + b) == encode_text(a) + encode_text(b),
    decreases a.len(),
{
    if a.len() == 0 {
        assert(a + b == b);
    } else {
        assert((a + b).take(3) == a.take(3));
        assert((a + b).skip(3) == a.skip(3) + b);
        lemma_encode_split(a.skip(3), b);
        assert(encode_text(a + b) == encode_group(a.take(3)) + (encode_text(a.skip(3))
            + encode_text(b)));
    }
}

/// The character for a six-bit value.
fn symbol_of(v: u32) -> (c: u8)
    requires
        v < 64,
    ensures
        c == symbol(v as int),
{
    proof {
        reveal(symbol);
    }
    if v < 26 {
        (v + 65) as u8
    } else if v < 52 {
        (v + 71) as u8
    } else if v < 62 {
        (v - 4) as u8
    } else if v == 62 {
        43u8
    } else {
        47u8
    }
}

/// The six-bit value of a character of the alphabet; `None` for any other.
fn value_of(c: u8) -> (v: Option<u32>)
    ensures
        v is Some <==> is_symbol(c),
        v is Some ==> v->Some_0 == value(c),
{
    proof {
        reveal(is_symbol);
        reveal(value);
    }
    if 65 <= c && c <= 90 {
        Some((c - 65) as u32)
    } else if 97 <= c && c <= 122 {
        Some((c - 71) as u32)
    } else if 48 <= c && c <= 57 {
        Some((c + 4) as u32)
    } else if c == 43 {
        Some(62u32)
    } else if c == 47 {
        Some(63u32)
    } else {
        None
    }
}

/// Writes the group for the `n` bytes of `data` that start at `at`.
fn write_group(out: &mut Vec<u8>, data: &[u8], at: usize, n: usize)
    requires
        1 <= n <= 3,
        at + n <= data.len(),
    ensures
        final(out)@ == old(out)@ + encode_group(data@.subrange(at as int, at + n)),
{
    let a: u32 = data[at] as u32;
    let b: u32 = if n > 1 { data[at + 1] as u32 } else { 0u32 };
    let c: u32 = if n > 2 { data[at + 2] as u32 } else { 0u32 };
    let bits: u32 = a * 65536 + b * 256 + c;
    let ghost before = out@;
    let ghost g = encode_group(data@.subrange(at as int, at + n));
    out.push(symbol_of(bits / 262144));
    out.push(symbol_of((bits / 4096) % 64));
    out.push(if n > 1 { symbol_of((bits / 64) % 64) } else { PAD });
    out.push(if n > 2 { symbol_of(bits % 64) } else { PAD });
    assert(out@ == before + g);
}

/// The text of `data[from..to]`.
fn encode_range(data: &[u8], from: usize, to: usize) -> (text: Vec<u8>)
    requires
        from <= to <= data.len(),
    ensures
        text@ == encode_text(data@.subrange(from as int, to as int)),
{
    let ghost all = data@.subrange(from as int, to as int);
    let mut text: Vec<u8> = Vec::new();
    let mut i: usize = from;
    assert(data@.subrange(from as int, to as int) == all);
    while to - i >= 3
        invariant
            from <= i <= to <= data.len(),
            all == data@.subrange(from as int, to as int),
            encode_text(all) == text@ + encode_text(data@.subrange(i as int, to as int)),
        decreases to - i,
    {
        let ghost rest = data@.subrange(i as int, to as int);
        write_group(&mut text, data, i, 3);
        proof {
            assert(rest.take(3) == data@.subrange(i as int, i + 3));
            assert(rest.skip(3) == data@.subrange(i + 3, to as int));
        }
        i = i + 3;
    }
    if to > i {
        write_group(&mut text, data, i, to - i);
    }
    text
}

/// Reads one group of four characters: appends its bytes to `out` and
/// returns true, or returns false where the group is not valid.
fn read_group(out: &mut Vec<u8>, c0: u8, c1: u8, c2: u8, c3: u8) -> (ok: bool)
    ensures
        ok == (group_len(seq![c0, c1, c2, c3]) > 0),
        ok ==> final(out)@ == old(out)@ + decode_group(seq![c0, c1, c2, c3]),
        !ok ==> final(out)@ == old(out)@,
{
    let ghost g = seq![c0, c1, c2, c3];
    let ghost before = out@;
    proof {
        lemma_value_range(c0);
        lemma_value_range(c1);
        lemma_value_range(c2);
        lemma_value_range(c3);
    }
    let v0: u32 = match value_of(c0) {
        Some(v) => v,
        None => { return false; },
    };
    let v1: u32 = match value_of(c1) {
        Some(v) => v,
        None => { return false; },
    };
    match (value_of(c2), value_of(c3)) {
        (Some(v2), Some(v3)) => {
            let bits: u32 = v0 * 262144 + v1 * 4096 + v2 * 64 + v3;
            out.push((bits / 65536) as u8);
            out.push(((bits / 256) % 256) as u8);
            out.push((bits % 256) as u8);
            assert(out@ == before + decode_group(g));
            true
        },
        (Some(v2), None) => {
            if c3 != PAD || v2 % 4 != 0 {
                return false;
            }
            let bits: u32 = v0 * 262144 + v1 * 4096 + v2 * 64;
            out.push((bits / 65536) as u8);
            out.push(((bits / 256) % 256) as u8);
            assert(out@ == before + decode_group(g));
            true
        },
        (None, _) => {
            if c2 != PAD || c3 != PAD || v1 % 16 != 0 {
                return false;
            }
            let bits: u32 = v0 * 262144 + v1 * 4096;
            out.push((bits / 65536) as u8);
            assert(out@ == before + decode_group(g));
            true
        },
    }
}

/// Reads the complete groups of `text[..to]`.
fn decode_range(text: &[u8], to: usize) -> (out: Result<Vec<u8>, ClientError>)
    requires
        to <= text.len(),
        to % 4 == 0,
    ensures
        groups_ok(text@.take(to as int)) ==> out == Ok::<Vec<u8>, ClientError>(out->Ok_0)
            && out->Ok_0@ == groups_bytes(text@.take(to as int)),
        !groups_ok(text@.take(to as int)) ==> out == Err::<Vec<u8>, ClientError>(
            ClientError::Encoding,
        ),
{
    let ghost all = text@.take(to as int);
    let mut bytes: Vec<u8> = Vec::new();
    let mut i: usize = 0;
    assert(all.skip(0) == all);
    while i < to
        invariant
            i <= to <= text.len(),
            i % 4 == 0,
            to % 4 == 0,
            all == text@.take(to as int),
            groups_ok(all) <==> groups_ok(all.skip(i as int)),
            groups_bytes(all) == bytes@ + groups_bytes(all.skip(i as int)),
        decreases to - i,
    {
        let ghost rest = all.skip(i as int);
        let ghost g = rest.take(4);
        proof {
            assert(rest.skip(4) == all.skip(i + 4));
            assert(g[0] == text@[i as int] && g[1] == text@[i + 1] && g[2] == text@[i + 2] && g[3]
                == text@[i + 3]);
        }
        let ghost before = bytes@;
        let ok: bool = read_group(&mut bytes, text[i], text[i + 1], text[i + 2], text[i + 3]);
        assert(g == seq![text@[i as int], text@[i + 1], text@[i + 2], text@[i + 3]]);
        if !ok {
            return Err(ClientError::Encoding);
        }
        assert(bytes@ == before + decode_group(g));
        i = i + 4;
    }
    Ok(bytes)
}

/// The base64 text of `data`.
pub fn encode(data: &[u8]) -> (text: Vec<u8>)
    ensures
        text@ == encode_text(data@),
{
    assert(data@.subrange(0, data@.len() as int) == data@);
    encode_range(data, 0, data.len())
}

/// Reads a whole base64 text. It must be made of valid groups of four
/// characters and nothing else.
pub fn decode(text: &[u8]) -> (out: Result<Vec<u8>, ClientError>)
    ensures
        text@.len() % 4 == 0 && groups_ok(text@) ==> out == Ok::<Vec<u8>, ClientError>(out->Ok_0)
            && out->Ok_0@ == groups_bytes(text@),
        !(text@.len() % 4 == 0 && groups_ok(text@)) ==> out == Err::<Vec<u8>, ClientError>(
            ClientError::Encoding,
        ),
{
    if text.len() % 4 != 0 {
        return Err(ClientError::Encoding);
    }
    assert(text@.take(text@.len() as int) == text@);
    decode_range(text, text.len())
}

/// The writing side of the filter. It gives out a group of four characters
/// for every three bytes taken in, and keeps up to two bytes back until the
/// next chunk or the end.
pub struct Base64Encoder {
    residual: Vec<u8>,
}

impl Base64Encoder {
    #[verifier::type_invariant]
    spec fn inv(self) -> bool {
        self.residual@.len() < 3
    }

    /// The bytes taken in and not yet written: fewer than three.
    pub closed spec fn pending(&self) -> Seq<u8> {
        self.residual@
    }

    /// An encoder that has taken in nothing.
    pub fn new() -> (enc: Self)
        ensures
            enc.pending() == Seq::<u8>::empty(),
    {
        Base64Encoder { residual: Vec::new() }
    }

    /// Takes in one chunk and returns the text of every group that is now
    /// complete.
    pub fn push(&mut self, chunk: &[u8]) -> (text: Vec<u8>)
        ensures
            ({
                let data = old(self).pending() + chunk@;
                let whole = data.len() - data.len() % 3;
                &&& text@ == encode_text(data.take(whole))
                &&& final(self).pending() == data.skip(whole)
            }),
    {
        let mut buf: Vec<u8> = Vec::new();
        append_bytes(&mut buf, self.residual.as_slice());
        append_bytes(&mut buf, chunk);
        let whole: usize = buf.len() - buf.len() % 3;
        let text = encode_range(buf.as_slice(), 0, whole);
        self.residual = slice_to_vec(slice_subrange(buf.as_slice(), whole, buf.len()));
        text
    }

    /// Ends the input: returns the padded group for what was kept back, or
    /// nothing, and leaves the encoder empty.
    pub fn finish(&mut self) -> (text: Vec<u8>)
        ensures
            text@ == encode_text(old(self).pending()),
            final(self).pending() == Seq::<u8>::empty(),
    {
        assert(self.residual@.subrange(0, self.residual@.len() as int) == self.residual@);
        let text = encode_range(self.residual.as_slice(), 0, self.residual.len());
        self.residual = Vec::new();
        text
    }
}

/// The reading side of the filter. It gives out the bytes of every group of
/// four characters taken in, and keeps up to three characters back until the
/// next chunk.
pub struct Base64Decoder {
    residual: Vec<u8>,
}

impl Base64Decoder {
    #[verifier::type_invariant]
    spec fn inv(self) -> bool {
        self.residual@.len() < 4
    }

    /// The characters taken in and not yet read: fewer than four.
    pub closed spec fn pending(&self) -> Seq<u8> {
        self.residual@
    }

    /// A decoder that has taken in nothing.
    pub fn new() -> (dec: Self)
        ensures
            dec.pending() == Seq::<u8>::empty(),
    {
        Base64Decoder { residual: Vec::new() }
    }

    /// Takes in one chunk and returns the bytes of every group that is now
    /// complete. A group that is not valid fails the call and leaves the
    /// decoder as it was. An unfinished group is no error here.
    pub fn push(&mut self, chunk: &[u8]) -> (out: Result<Vec<u8>, ClientError>)
        ensures
            final(self).pending().len() < 4,
            groups_ok(old(self).pending() + chunk@) ==> out == Ok::<Vec<u8>, ClientError>(
                out->Ok_0,
            ) && out->Ok_0@ == groups_bytes(old(self).pending() + chunk@) && final(self).pending()
                == leftover(old(self).pending() + chunk@),
            !groups_ok(old(self).pending() + chunk@) ==> out == Err::<Vec<u8>, ClientError>(
                ClientError::Encoding,
            ) && final(self).pending() == old(self).pending(),
    {
        proof {
            use_type_invariant(&*self);
        }
        let ghost text = self.residual@ + chunk@;
        let mut buf: Vec<u8> = Vec::new();
        append_bytes(&mut buf, self.residual.as_slice());
        append_bytes(&mut buf, chunk);
        let whole: usize = buf.len() - buf.len() % 4;
        proof {
            lemma_leftover_short(text);
            lemma_groups_split(text.take(whole as int), text.skip(whole as int));
            lemma_leftover_short(text.take(whole as int));
            assert(text.take(whole as int) + text.skip(whole as int) == text);
            assert(text.take(whole as int).skip(whole as int) == Seq::<u8>::empty());
            assert(Seq::<u8>::empty() + text.skip(whole as int) == text.skip(whole as int));
        }
        match decode_range(buf.as_slice(), whole) {
            Ok(bytes) => {
                self.residual = slice_to_vec(slice_subrange(buf.as_slice(), whole, buf.len()));
                Ok(bytes)
            },
            Err(e) => Err(e),
        }
    }

    /// Ends the input. The text must have ended on a whole group.
    pub fn finish(&self) -> (out: Result<(), ClientError>)
        ensures
            self.pending().len() == 0 ==> out == Ok::<(), ClientError>(()),
            self.pending().len() != 0 ==> out == Err::<(), ClientError>(ClientError::Encoding),
    {
        if self.residual.len() == 0 {
            Ok(())
        } else {
            Err(ClientError::Encoding)
        }
    }
}

} // verus!
