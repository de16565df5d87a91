//! Binary-safe text transcoding: every three bytes become four symbols of a
//! 64-symbol alphabet, with `=` padding the final group.
use vstd::prelude::*;
use vstd::std_specs::iter::IteratorSpec;

verus! {

/// Why a text could not be decoded.
#[derive(Debug, Clone, Copy, PartialEq, Eq, Structural)]
pub enum DecodeError {
    /// The text ends in a group shorter than four characters.
    InvalidLength,
    /// A group holds a character outside the alphabet, or a misplaced pad.
    InvalidCharacter,
}

/// The pad symbol.
pub open spec fn pad() -> char {
    '='
}

/// The symbol that stands for the six-bit value `v` (`0 <= v < 64`).
pub open spec fn symbol(v: int) -> char {
    if v < 26 {
        (v + 65) as char
    } else if v < 52 {
        (v + 71) as char
    } else if v < 62 {
        (v - 4) as char
    } else if v == 62 {
        '+'
    } else {
        '/'
    }
}

/// The six-bit value of an alphabet symbol; `None` for any other character,
/// the pad included.
pub open spec fn symbol_value(c: char) -> Option<int> {
    let u = c as int;
    if 65 <= u <= 90 {
        Some(u - 65)
    } else if 97 <= u <= 122 {
        Some(u - 71)
    } else if 48 <= u <= 57 {
        Some(u + 4)
    } else if u == 43 {
        Some(62)
    } else if u == 47 {
        Some(63)
    } else {
        None
    }
}

/// The four characters that encode a group of one to three bytes.
pub open spec fn encode_group(g: Seq<u8>) -> Seq<char> {
    let x = g[0] as int;
    let y = if g.len() > 1 { g[1] as int } else { 0 };
    let z = if g.len() > 2 { g[2] as int } else { 0 };
    seq![
        symbol(x / 4),
        symbol((x % 4) * 16 + y / 16),
        if g.len() > 1 { symbol((y % 16) * 4 + z / 64) } else { pad() },
        if g.len() > 2 { symbol(z % 64) } else { pad() },
    ]
}

/// The encoding of a byte sequence, group by group from the front.
pub open spec fn encode_spec(b: Seq<u8>) -> Seq<char>
    decreases b.len(),
{
    if b.len() == 0 {
        Seq::empty()
    } else if b.len() <= 3 {
        encode_group(b)
    } else {
        encode_group(b.take(3)) + encode_spec(b.skip(3))
    }
}

/// The bytes of one four-character group, or `None` where it is malformed.
/// A pad may stand only in the last one or two places of the final group.
pub open spec fn decode_group(g: Seq<char>, last: bool) -> Option<Seq<u8>> {
    let pad2 = g[2] == pad();
    let pad3 = g[3] == pad();
    if symbol_value(g[0]) is None || symbol_value(g[1]) is None {
        None
    } else if !pad2 && symbol_value(g[2]) is None {
        None
    } else if !pad3 && symbol_value(g[3]) is None {
        None
    } else if (pad2 || pad3) && !last {
        None
    } else if pad2 && !pad3 {
        None
    } else {
        let v0 = symbol_value(g[0])->0;
        let v1 = symbol_value(g[1])->0;
        let v2 = if pad2 { 0 } else { symbol_value(g[2])->0 };
        let v3 = if pad3 { 0 } else { symbol_value(g[3])->0 };
        let b0 = (v0 * 4 + v1 / 16) as u8;
        let b1 = ((v1 % 16) * 16 + v2 / 4) as u8;
        let b2 = ((v2 % 4) * 64 + v3) as u8;
        if pad2 {
            Some(seq![b0])
        } else if pad3 {
            Some(seq![b0, b1])
        } else {
            Some(seq![b0, b1, b2])
        }
    }
}

/// The decoding of a text, group by group from the front; the first
/// malformed group decides the error.
pub open spec fn decode_spec(s: Seq<char>) -> Result<Seq<u8>, DecodeError>
    decreases s.len(),
{
    if s.len() == 0 {
        Ok(Seq::empty())
    } else if s.len() < 4 {
        Err(DecodeError::InvalidLength)
    } else {
        match decode_group(s.take(4), s.len() == 4) {
            None => Err(DecodeError::InvalidCharacter),
            Some(g) => match decode_spec(s.skip(4)) {
                Ok(r) => Ok(g + r),
                Err(e) => Err(e),
            },
        }
    }
}

/// Relies on String::push: the character is appended.
#[verifier::external_body]
fn push_char(s: &mut String, c: char)
    ensures
        final(s)@ == old(s)@.push(c),
{
    s.push(c)
}

fn symbol_char(v: u8) -> (c: char)
    requires
        v < 64,
    ensures
        c == symbol(v as int),
{
    if v < 26 {
        (v + 65) as char
    } else if v < 52 {
        (v + 71) as char
    } else if v < 62 {
        (v - 4) as char
    } else if v == 62 {
        '+'
    } else {
        '/'
    }
}

fn char_value(c: char) -> (r: Option<u8>)
    ensures
        match symbol_value(c) {
            Some(v) => r == Some(v as u8) && 0 <= v < 64,
            None => r is None,
        },
{
    if 'A' <= c && c <= 'Z' {
        Some((c as u32 - 65) as u8)
    } else if 'a' <= c && c <= 'z' {
        Some((c as u32 - 71) as u8)
    } else if '0' <= c && c <= '9' {
        Some((c as u32 + 4) as u8)
    } else if c == '+' {
        Some(62)
    } else if c == '/' {
        Some(63)
    } else {
        None
    }
}

/// Encodes bytes as text: four symbols for each group of three bytes, the
/// final group padded with `=`.
pub fn base64_encode(data: &[u8]) -> (r: String)
    ensures
        r@ == encode_spec(data@),
{
    let mut result = String::new();
    let mut i: usize = 0;
    assert(data@.skip(0) =~= data@);
    assert(result@ + encode_spec(data@) =~= encode_spec(data@));
    while i < data.len()
        invariant
            i <= data.len(),
            encode_spec(data@) == result@ + encode_spec(data@.skip(i as int)),
        decreases data.len() - i,
    {
        let rest: usize = data.len() - i;
        let x = data[i];
        let y: u8 = if rest > 1 { data[i + 1] } else { 0 };
        let z: u8 = if rest > 2 { data[i + 2] } else { 0 };
        let ghost tail = data@.skip(i as int);
        let ghost group = if rest <= 3 { tail } else { tail.take(3) };
        let ghost before = result@;
        push_char(&mut result, symbol_char(x / 4));
        push_char(&mut result, symbol_char((x % 4) * 16 + y / 16));
        if rest > 1 {
            push_char(&mut result, symbol_char((y % 16) * 4 + z / 64));
        } else {
            push_char(&mut result, '=');
        }
        if rest > 2 {
            push_char(&mut result, symbol_char(z % 64));
        } else {
            push_char(&mut result, '=');
        }
        assert(result@ =~= before + encode_group(group));
        if rest > 3 {
            assert(tail.skip(3) =~= data@.skip(i + 3));
            i = i + 3;
        } else {
            assert(data@.skip(data.len() as int) =~= Seq::<u8>::empty());
            i = data.len();
        }
    }
    assert(data@.skip(i as int) =~= Seq::<u8>::empty());
    assert(result@ =~= result@ + Seq::<char>::empty());
    result
}

/// Decoded bytes put after a prefix; an error stays as it is.
pub open spec fn after_prefix(p: Seq<u8>, r: Result<Seq<u8>, DecodeError>) -> Result<Seq<u8>, DecodeError> {
    match r {
        Ok(b) => Ok(p + b),
        Err(e) => Err(e),
    }
}

/// The characters of a text, in order.
fn chars_of(s: &str) -> (r: Vec<char>)
    ensures
        r@ == s@,
{
    let mut out: Vec<char> = Vec::new();
    let mut it = s.chars();
    assert(out@ + IteratorSpec::remaining(&it) =~= s@);
    loop
        invariant
            out@ + IteratorSpec::remaining(&it) == s@,
            IteratorSpec::decrease(&it) is Some,
        ensures
            out@ == s@,
        decreases IteratorSpec::decrease(&it)->0,
    {
        match it.next() {
            Some(c) => {
                out.push(c);
                assert(out@ + IteratorSpec::remaining(&it) =~= s@);
            },
            None => {
                assert(out@ =~= s@);
                break;
            },
        }
    }
    out
}

/// Decodes text produced by `base64_encode`. The text is read in groups of
/// four characters; the first malformed group decides the error, and no bytes
/// are returned with one.
pub fn base64_decode(data: &str) -> (r: Result<Vec<u8>, DecodeError>)
    ensures
        match r {
            Ok(v) => decode_spec(data@) == Ok::<Seq<u8>, DecodeError>(v@),
            Err(e) => decode_spec(data@) == Err::<Seq<u8>, DecodeError>(e),
        },
{
    let chars = chars_of(data);
    let n = chars.len();
    let mut result: Vec<u8> = Vec::new();
    let mut i: usize = 0;
    assert(chars@.skip(0) =~= chars@);
    assert(Seq::<u8>::empty() + Seq::<u8>::empty() =~= Seq::<u8>::empty());
    while i < n
        invariant
            n == chars@.len(),
            chars@ == data@,
            i <= n,
            decode_spec(data@) == after_prefix(result@, decode_spec(chars@.skip(i as int))),
        decreases n - i,
    {
        let ghost tail = chars@.skip(i as int);
        let ghost group = tail.take(4);
        if n - i < 4 {
            return Err(DecodeError::InvalidLength);
        }
        let last = n - i == 4;
        let c0 = chars[i];
        let c1 = chars[i + 1];
        let c2 = chars[i + 2];
        let c3 = chars[i + 3];
        assert(group[0] == c0 && group[1] == c1 && group[2] == c2 && group[3] == c3);
        let v0 = match char_value(c0) {
            Some(v) => v,
            None => return Err(DecodeError::InvalidCharacter),
        };
        let v1 = match char_value(c1) {
            Some(v) => v,
            None => return Err(DecodeError::InvalidCharacter),
        };
        let pad2 = c2 == '=';
        let pad3 = c3 == '=';
        let v2: u8 = if pad2 {
            0
        } else {
            match char_value(c2) {
                Some(v) => v,
                None => return Err(DecodeError::InvalidCharacter),
            }
        };
        let v3: u8 = if pad3 {
            0
        } else {
            match char_value(c3) {
                Some(v) => v,
                None => return Err(DecodeError::InvalidCharacter),
            }
        };
        if (pad2 || pad3) && !last {
            return Err(DecodeError::InvalidCharacter);
        }
        if pad2 && !pad3 {
            return Err(DecodeError::InvalidCharacter);
        }
        let ghost before = result@;
        result.push(v0 * 4 + v1 / 16);
        if !pad2 {
            result.push((v1 % 16) * 16 + v2 / 4);
        }
        if !pad3 {
            result.push((v2 % 4) * 64 + v3);
        }
        let ghost g = decode_group(group, last)->0;
        assert(result@ =~= before + g);
        assert(tail.skip(4) =~= chars@.skip(i + 4));
        assert(before + (g + Seq::<u8>::empty()) =~= result@ + Seq::<u8>::empty());
        assert forall|t: Seq<u8>| before + (g + t) =~= result@ + t by {}
        i = i + 4;
    }
    assert(chars@.skip(i as int) =~= Seq::<char>::empty());
    assert(result@ + Seq::<u8>::empty() =~= result@);
    Ok(result)
}

proof fn lemma_symbol(v: int)
    requires
        0 <= v < 64,
    ensures
        symbol_value(symbol(v)) == Some(v),
        symbol(v) != pad(),
{
}

proof fn lemma_group_arith(x: int, y: int, z: int)
    requires
        0 <= x < 256,
        0 <= y < 256,
        0 <= z < 256,
    ensures
        (x / 4) * 4 + ((x % 4) * 16 + y / 16) / 16 == x,
        ((((x % 4) * 16 + y / 16) % 16) * 16 + ((y % 16) * 4 + z / 64) / 4) == y,
        (((y % 16) * 4 + z / 64) % 4) * 64 + z % 64 == z,
{
    assert((x / 4) * 4 + ((x % 4) * 16 + y / 16) / 16 == x) by (nonlinear_arith)
        requires 0 <= x < 256, 0 <= y < 256;
    assert((((x % 4) * 16 + y / 16) % 16) * 16 + ((y % 16) * 4 + z / 64) / 4 == y) by (nonlinear_arith)
        requires 0 <= x < 256, 0 <= y < 256, 0 <= z < 256;
    assert((((y % 16) * 4 + z / 64) % 4) * 64 + z % 64 == z) by (nonlinear_arith)
        requires 0 <= y < 256, 0 <= z < 256;
}

proof fn lemma_group_round_trip(g: Seq<u8>, last: bool)
    requires
        1 <= g.len() <= 3,
        g.len() < 3 ==> last,
    ensures
        decode_group(encode_group(g), last) == Some(g),
{
    let x = g[0] as int;
    let y = if g.len() > 1 { g[1] as int } else { 0 };
    let z = if g.len() > 2 { g[2] as int } else { 0 };
    lemma_group_arith(x, y, z);
    lemma_symbol(x / 4);
    lemma_symbol((x % 4) * 16 + y / 16);
    lemma_symbol((y % 16) * 4 + z / 64);
    lemma_symbol(z % 64);
    let d = decode_group(encode_group(g), last)->0;
    assert(d =~= g);
}

proof fn lemma_encode_len(b: Seq<u8>)
    ensures
        b.len() > 0 ==> encode_spec(b).len() >= 4,
        b.len() == 0 ==> encode_spec(b).len() == 0,
    decreases b.len(),
{
    if b.len() > 3 {
        lemma_encode_len(b.skip(3));
    }
}

/// Decoding undoes encoding: for every byte sequence `b`,
/// `decode(encode(b))` succeeds with exactly `b`.
pub proof fn lemma_round_trip(b: Seq<u8>)
    ensures
        decode_spec(encode_spec(b)) == Ok::<Seq<u8>, DecodeError>(b),
    decreases b.len(),
{
    if b.len() == 0 {
        assert(b =~= Seq::<u8>::empty());
    } else if b.len() <= 3 {
        let s = encode_group(b);
        lemma_group_round_trip(b, true);
        assert(s.take(4) =~= s);
        assert(s.skip(4) =~= Seq::<char>::empty());
        assert(b + Seq::<u8>::empty() =~= b);
    } else {
        let rest = b.skip(3);
        let e = encode_spec(rest);
        let s = encode_group(b.take(3)) + e;
        lemma_round_trip(rest);
        lemma_encode_len(rest);
        lemma_group_round_trip(b.take(3), false);
        assert(s.take(4) =~= encode_group(b.take(3)));
        assert(s.skip(4) =~= e);
        assert(b.take(3) + rest =~= b);
        assert(s.len() != 4);
        assert(decode_spec(s) == after_prefix(b.take(3), decode_spec(e)));
    }
}

/// Malformed text is rejected: a text whose length is not a multiple of
/// four, or that holds a character that is neither an alphabet symbol nor the
/// pad, decodes to an error.
pub proof fn lemma_rejects_malformed(s: Seq<char>)
    requires
        s.len() % 4 != 0 || exists|i: int| 0 <= i < s.len() && symbol_value(#[trigger] s[i]) is None && s[i] != pad(),
    ensures
        decode_spec(s) is Err,
    decreases s.len(),
{
    if s.len() >= 4 {
        let g = s.take(4);
        if decode_group(g, s.len() == 4) is Some {
            let t = s.skip(4);
            if s.len() % 4 != 0 {
                assert(t.len() % 4 != 0);
            } else {
                let i = choose|i: int| 0 <= i < s.len() && symbol_value(#[trigger] s[i]) is None && s[i] != pad();
                if i < 4 {
                    assert(g[i] == s[i]);
                    assert(false);
                } else {
                    assert(t[i - 4] == s[i]);
                }
            }
            lemma_rejects_malformed(t);
        }
    }
}

} // verus!
