//! Standard base64.

use vstd::prelude::*;
use vstd::string::*;

verus! {

/// The value of a base64 digit.
pub open spec fn digit_value(c: u8) -> Option<int> {
    if 65 <= c <= 90 {
        Some(c - 65)
    } else if 97 <= c <= 122 {
        Some(c - 97 + 26)
    } else if 48 <= c <= 57 {
        Some(c - 48 + 52)
    } else if c == 43 {
        Some(62)
    } else if c == 47 {
        Some(63)
    } else {
        None
    }
}

/// The value of a character of a group: padding counts as 0.
pub open spec fn char_value(c: u8) -> Option<int> {
    if c == 61 {
        Some(0)
    } else {
        digit_value(c)
    }
}

/// 1 for a padding character, else 0.
pub open spec fn pad_count(c: u8) -> int {
    if c == 61 {
        1
    } else {
        0
    }
}

/// Whether `b` is ASCII white space.
pub open spec fn ascii_space(b: u8) -> bool {
    b == 32 || b == 9 || b == 10 || b == 12 || b == 13
}

/// The bytes that a group of four characters stands for: three, less one for
/// each padding character. Padding fills the last place or the last two.
#[verifier::opaque]
pub open spec fn group_bytes(a: u8, b: u8, c: u8, d: u8) -> Option<Seq<u8>> {
    match (digit_value(a), digit_value(b), char_value(c), char_value(d)) {
        (Some(va), Some(vb), Some(vc), Some(vd)) => {
            let n = ((va * 64 + vb) * 64 + vc) * 64 + vd;
            let pad = pad_count(c) + pad_count(d);
            let b0 = (n / 65536) as u8;
            let b1 = (n / 256 % 256) as u8;
            let b2 = (n % 256) as u8;
            if c == 61 && d != 61 {
                None
            } else if pad < 1 {
                Some(seq![b0, b1, b2])
            } else if pad < 2 {
                Some(seq![b0, b1])
            } else {
                Some(seq![b0])
            }
        },
        _ => None,
    }
}

/// The bytes that groups of four characters stand for. Only the last group may
/// be padded.
pub open spec fn groups_bytes(s: Seq<u8>) -> Option<Seq<u8>>
    decreases s.len(),
{
    if s.len() == 0 {
        Some(Seq::empty())
    } else if s.len() < 4 || s.subrange(0, s.len() - 4).contains(61u8) {
        None
    } else {
        match (
            groups_bytes(s.subrange(0, s.len() - 4)),
            group_bytes(s[s.len() - 4], s[s.len() - 3], s[s.len() - 2], s[s.len() - 1]),
        ) {
            (Some(front), Some(back)) => Some(front + back),
            _ => None,
        }
    }
}

/// `s` without its ASCII white space.
pub open spec fn unspaced(s: Seq<u8>) -> Seq<u8>
    decreases s.len(),
{
    if s.len() == 0 {
        Seq::empty()
    } else if ascii_space(s.last()) {
        unspaced(s.drop_last())
    } else {
        unspaced(s.drop_last()).push(s.last())
    }
}

/// What base64 text stands for: white space is skipped, and the rest comes in
/// groups of four, the last of which may be padded.
pub open spec fn decoded(s: Seq<u8>) -> Option<Seq<u8>> {
    groups_bytes(unspaced(s))
}

fn value_of(c: u8) -> (r: Option<u32>)
    ensures
        match char_value(c) {
            Some(v) => r == Some(v as u32) && 0 <= v < 64,
            None => r is None,
        },
{
    if c == 61 {
        Some(0)
    } else if 65 <= c && c <= 90 {
        Some((c - 65) as u32)
    } else if 97 <= c && c <= 122 {
        Some((c - 97 + 26) as u32)
    } else if 48 <= c && c <= 57 {
        Some((c - 48 + 52) as u32)
    } else if c == 43 {
        Some(62)
    } else if c == 47 {
        Some(63)
    } else {
        None
    }
}

fn strip_spaces(s: &[u8]) -> (r: Vec<u8>)
    ensures
        r@ == unspaced(s@),
{
    let mut r: Vec<u8> = Vec::new();
    let n: usize = s.len();
    let mut i: usize = 0;
    assert(s@.take(0) =~= Seq::<u8>::empty());
    while i < n
        invariant
            i <= n == s@.len(),
            r@ == unspaced(s@.take(i as int)),
        decreases n - i,
    {
        let b: u8 = s[i];
        assert(s@.take(i + 1).drop_last() =~= s@.take(i as int));
        if !(b == 32 || b == 9 || b == 10 || b == 12 || b == 13) {
            r.push(b);
        }
        i = i + 1;
    }
    assert(s@.take(n as int) =~= s@);
    r
}

fn is_pad(c: u8) -> (r: u32)
    ensures
        r == pad_count(c),
{
    if c == 61 {
        1
    } else {
        0
    }
}

/// Appends the bytes of a group to `out`; does nothing where it is no group.
fn push_group(out: &mut Vec<u8>, a: u8, b: u8, c: u8, d: u8) -> (r: bool)
    ensures
        match group_bytes(a, b, c, d) {
            Some(bytes) => r && final(out)@ == old(out)@ + bytes,
            None => !r && final(out)@ == old(out)@,
        },
{
    proof {
        reveal(group_bytes);
    }
    if a == 61 || b == 61 || (c == 61 && d != 61) {
        return false;
    }
    let va: u32 = match value_of(a) {
        Some(v) => v,
        None => {
            return false;
        },
    };
    let vb: u32 = match value_of(b) {
        Some(v) => v,
        None => {
            return false;
        },
    };
    let vc: u32 = match value_of(c) {
        Some(v) => v,
        None => {
            return false;
        },
    };
    let vd: u32 = match value_of(d) {
        Some(v) => v,
        None => {
            return false;
        },
    };
    let acc: u32 = ((va * 64 + vb) * 64 + vc) * 64 + vd;
    let pad: u32 = is_pad(c) + is_pad(d);
    out.push((acc / 65536) as u8);
    if pad < 2 {
        out.push((acc / 256 % 256) as u8);
    }
    if pad < 1 {
        out.push((acc % 256) as u8);
    }
    assert(out@ =~= old(out)@ + group_bytes(a, b, c, d)->0);
    true
}

/// Where a prefix of whole groups does not decode, the whole does not.
proof fn lemma_bad_prefix(s: Seq<u8>, i: int)
    requires
        0 <= i <= s.len(),
        i % 4 == 0,
        groups_bytes(s.take(i)) is None,
    ensures
        groups_bytes(s) is None,
    decreases s.len(),
{
    if s.len() == i {
        assert(s.take(i) =~= s);
    } else if s.len() >= 4 {
        let front = s.subrange(0, s.len() - 4);
        if i <= s.len() - 4 {
            assert(front.take(i) =~= s.take(i));
            lemma_bad_prefix(front, i);
        } else {
            lemma_ragged(s);
        }
    }
}

/// A group that does not end in padding has none.
proof fn lemma_padding_ends(a: u8, b: u8, c: u8, d: u8)
    requires
        group_bytes(a, b, c, d) is Some,
        d != 61,
    ensures
        a != 61,
        b != 61,
        c != 61,
{
    reveal(group_bytes);
}

/// Text whose length is no multiple of four does not decode.
proof fn lemma_ragged(s: Seq<u8>)
    requires
        s.len() % 4 != 0,
    ensures
        groups_bytes(s) is None,
    decreases s.len(),
{
    if s.len() >= 4 {
        lemma_ragged(s.subrange(0, s.len() - 4));
    }
}

/// Decodes base64 text. Gives none where the text is not base64.
pub fn base64_decode(input: &str) -> (r: Option<Vec<u8>>)
    ensures
        match decoded(input.spec_bytes()) {
            Some(bytes) => r is Some && r->0@ == bytes,
            None => r is None,
        },
{
    let bytes: Vec<u8> = strip_spaces(input.as_bytes());
    let n: usize = bytes.len();
    if n % 4 != 0 {
        proof {
            lemma_ragged(bytes@);
        }
        return None;
    }
    let mut out: Vec<u8> = Vec::new();
    let mut padded: bool = false;
    let mut i: usize = 0;
    assert(bytes@.take(0) =~= Seq::<u8>::empty());
    while i < n
        invariant
            i <= n == bytes@.len(),
            n % 4 == 0,
            i % 4 == 0,
            bytes@ == unspaced(input.spec_bytes()),
            groups_bytes(bytes@.take(i as int)) == Some(out@),
            padded == bytes@.take(i as int).contains(61u8),
        decreases n - i,
    {
        let (a, b, c, d): (u8, u8, u8, u8) = (bytes[i], bytes[i + 1], bytes[i + 2], bytes[i + 3]);
        let ghost now = bytes@.take(i + 4);
        proof {
            assert(now.subrange(0, now.len() - 4) =~= bytes@.take(i as int));
            assert(now[now.len() - 4] == a && now[now.len() - 3] == b && now[now.len() - 2] == c
                && now[now.len() - 1] == d);
            if groups_bytes(now) is None {
                lemma_bad_prefix(bytes@, i + 4);
            }
        }
        let ghost before = out@;
        if padded || !push_group(&mut out, a, b, c, d) {
            return None;
        }
        assert(groups_bytes(now) == Some(before + group_bytes(a, b, c, d)->0));
        padded = d == 61;
        proof {
            if d != 61 {
                lemma_padding_ends(a, b, c, d);
            }
            assert(now.contains(61u8) == padded) by {
                if padded {
                    assert(now[i + 3] == 61);
                } else if now.contains(61u8) {
                    let j = choose|j: int| 0 <= j < now.len() && now[j] == 61u8;
                    if j < i {
                        assert(bytes@.take(i as int)[j] == 61u8);
                    } else {
                        assert(j == i || j == i + 1 || j == i + 2 || j == i + 3);
                    }
                }
            }
        }
        i = i + 4;
    }
    assert(bytes@.take(n as int) =~= bytes@);
    Some(out)
}

/// The base64 digit for `v`.
pub open spec fn digit_for(v: int) -> u8 {
    if v < 26 {
        (65 + v) as u8
    } else if v < 52 {
        (97 + v - 26) as u8
    } else if v < 62 {
        (48 + v - 52) as u8
    } else if v == 62 {
        43
    } else {
        47
    }
}

/// The four characters for up to three bytes.
pub open spec fn encoded_group(s: Seq<u8>) -> Seq<u8> {
    let n = s[0] * 65536 + (if s.len() > 1 {
        s[1] as int
    } else {
        0
    }) * 256 + (if s.len() > 2 {
        s[2] as int
    } else {
        0
    });
    seq![
        digit_for(n / 262144),
        digit_for(n / 4096 % 64),
        if s.len() > 1 {
            digit_for(n / 64 % 64)
        } else {
            61
        },
        if s.len() > 2 {
            digit_for(n % 64)
        } else {
            61
        },
    ]
}

/// The standard base64 encoding of `s`.
pub open spec fn encoded(s: Seq<u8>) -> Seq<u8>
    decreases s.len(),
{
    if s.len() == 0 {
        Seq::empty()
    } else {
        let cut = s.len() - (if s.len() % 3 == 0 {
            3int
        } else {
            s.len() as int % 3
        });
        encoded(s.subrange(0, cut)) + encoded_group(s.subrange(cut, s.len() as int))
    }
}

proof fn lemma_digit_round_trip(v: int)
    requires
        0 <= v < 64,
    ensures
        digit_value(digit_for(v)) == Some(v),
        char_value(digit_for(v)) == Some(v),
        pad_count(digit_for(v)) == 0,
        !ascii_space(digit_for(v)),
{
}

/// The sextets of three bytes, from their high and low parts.
proof fn lemma_sextet_parts(n: int, h0: int, l0: int, h1: int, l1: int, h2: int, l2: int)
    requires
        0 <= h0 < 64,
        0 <= l0 < 4,
        0 <= h1 < 16,
        0 <= l1 < 16,
        0 <= h2 < 4,
        0 <= l2 < 64,
        n == 262144 * h0 + 65536 * l0 + 4096 * h1 + 256 * l1 + 64 * h2 + l2,
    ensures
        n / 262144 == h0,
        n / 4096 % 64 == 16 * l0 + h1,
        n / 64 % 64 == 4 * l1 + h2,
        n % 64 == l2,
{
    assert(n / 262144 == h0);
    assert(n / 4096 == 64 * h0 + 16 * l0 + h1);
    assert(n / 64 == 4096 * h0 + 1024 * l0 + 64 * h1 + 4 * l1 + h2);
}

/// The bytes, from their high and low parts.
proof fn lemma_byte_parts(n: int, b0: int, b1: int, b2: int)
    requires
        0 <= b0 < 256,
        0 <= b1 < 256,
        0 <= b2 < 256,
        n == b0 * 65536 + b1 * 256 + b2,
    ensures
        n / 65536 == b0,
        n / 256 % 256 == b1,
        n % 256 == b2,
{
    assert(n / 256 == 256 * b0 + b1);
}

proof fn lemma_sextets(b0: int, b1: int, b2: int)
    requires
        0 <= b0 < 256,
        0 <= b1 < 256,
        0 <= b2 < 256,
    ensures
        ({
            let n = b0 * 65536 + b1 * 256 + b2;
            &&& 0 <= n / 262144 < 64
            &&& 0 <= n / 4096 % 64 < 64
            &&& 0 <= n / 64 % 64 < 64
            &&& 0 <= n % 64 < 64
            &&& ((n / 262144 * 64 + n / 4096 % 64) * 64 + n / 64 % 64) * 64 + n % 64 == n
            &&& n / 65536 == b0
            &&& n / 256 % 256 == b1
            &&& n % 256 == b2
            &&& b2 == 0 ==> n % 64 == 0
            &&& b1 == 0 && b2 == 0 ==> n / 64 % 64 == 0
        }),
{
    let (h0, l0) = (b0 / 4, b0 % 4);
    let (h1, l1) = (b1 / 16, b1 % 16);
    let (h2, l2) = (b2 / 64, b2 % 64);
    let n = b0 * 65536 + b1 * 256 + b2;
    lemma_sextet_parts(n, h0, l0, h1, l1, h2, l2);
    lemma_byte_parts(n, b0, b1, b2);
}

proof fn lemma_group_round_trip(s: Seq<u8>)
    requires
        1 <= s.len() <= 3,
    ensures
        group_bytes(
            encoded_group(s)[0],
            encoded_group(s)[1],
            encoded_group(s)[2],
            encoded_group(s)[3],
        ) == Some(s),
        forall|i: int| 0 <= i < 4 ==> !ascii_space(#[trigger] encoded_group(s)[i]),
{
    let b0 = s[0] as int;
    let b1 = if s.len() > 1 {
        s[1] as int
    } else {
        0
    };
    let b2 = if s.len() > 2 {
        s[2] as int
    } else {
        0
    };
    let n = b0 * 65536 + b1 * 256 + b2;
    lemma_sextets(b0, b1, b2);
    let (d0, d1, d2, d3) = (n / 262144, n / 4096 % 64, n / 64 % 64, n % 64);
    lemma_digit_round_trip(d0);
    lemma_digit_round_trip(d1);
    lemma_digit_round_trip(d2);
    lemma_digit_round_trip(d3);
    let g = encoded_group(s);
    assert(g[0] == digit_for(d0));
    assert(g[1] == digit_for(d1));
    assert(char_value(g[2]) == Some(d2)) by {
        if s.len() == 1 {
            assert(d2 == 0);
        }
    }
    assert(char_value(g[3]) == Some(d3)) by {
        if s.len() < 3 {
            assert(d3 == 0);
        }
    }
    assert(((d0 * 64 + d1) * 64 + d2) * 64 + d3 == n);
    reveal(group_bytes);
    let r = group_bytes(g[0], g[1], g[2], g[3]);
    assert(r is Some);
    assert(pad_count(g[2]) + pad_count(g[3]) == 3 - s.len());
    assert(r->0 =~= s);
}

proof fn lemma_unspaced_whole(s: Seq<u8>)
    requires
        forall|i: int| 0 <= i < s.len() ==> !ascii_space(#[trigger] s[i]),
    ensures
        unspaced(s) == s,
    decreases s.len(),
{
    if s.len() > 0 {
        assert forall|i: int| 0 <= i < s.drop_last().len() implies !ascii_space(
            #[trigger] s.drop_last()[i],
        ) by {
            assert(s.drop_last()[i] == s[i]);
        }
        assert(!ascii_space(s[s.len() - 1]));
        lemma_unspaced_whole(s.drop_last());
        assert(s.drop_last().push(s.last()) =~= s);
    }
}

proof fn lemma_whole_group_unpadded(s: Seq<u8>, i: int)
    requires
        s.len() == 3,
        0 <= i < 4,
    ensures
        encoded_group(s)[i] != 61,
{
    lemma_sextets(s[0] as int, s[1] as int, s[2] as int);
}

proof fn lemma_encoded_groups(s: Seq<u8>)
    ensures
        groups_bytes(encoded(s)) == Some(s),
        forall|i: int| 0 <= i < encoded(s).len() ==> !ascii_space(#[trigger] encoded(s)[i]),
        s.len() % 3 == 0 ==> !encoded(s).contains(61u8),
    decreases s.len(),
{
    if s.len() > 0 {
        let cut = s.len() - (if s.len() % 3 == 0 {
            3int
        } else {
            s.len() as int % 3
        });
        let (front, back) = (s.subrange(0, cut), s.subrange(cut, s.len() as int));
        lemma_encoded_groups(front);
        lemma_group_round_trip(back);
        let e = encoded(s);
        let (ef, eb) = (encoded(front), encoded_group(back));
        assert(e.subrange(0, e.len() - 4) =~= ef);
        assert(e[e.len() - 4] == eb[0] && e[e.len() - 3] == eb[1] && e[e.len() - 2] == eb[2]
            && e[e.len() - 1] == eb[3]);
        assert(front + back =~= s);
        assert forall|i: int| 0 <= i < e.len() implies !ascii_space(#[trigger] e[i]) by {
            if i < ef.len() {
                assert(e[i] == ef[i]);
            } else {
                assert(e[i] == eb[i - ef.len()]);
            }
        }
        if s.len() % 3 == 0 && e.contains(61u8) {
            let j = choose|j: int| 0 <= j < e.len() && e[j] == 61u8;
            if j < ef.len() {
                assert(ef[j] == 61u8);
            } else {
                assert(eb[j - ef.len()] == 61u8);
                lemma_whole_group_unpadded(back, j - ef.len());
            }
        }
    }
}

/// Decoding gives back what was encoded.
pub proof fn decoding_inverts_encoding(s: Seq<u8>)
    ensures
        decoded(encoded(s)) == Some(s),
{
    lemma_encoded_groups(s);
    lemma_unspaced_whole(encoded(s));
}

} // verus!
