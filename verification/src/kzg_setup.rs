//! The text of a trusted setup: the numbers of its points, in decimal, and then the
//! points, in hexadecimal. White space separates, and what follows the points is not
//! read.

use vstd::prelude::*;

verus! {

/// Points of the first group, in Lagrange form and again in monomial form.
pub const NUM_G1_POINTS: usize = 4_096;

/// Points of the second group.
pub const NUM_G2_POINTS: usize = 65;

/// Bytes of the points of the first group, in either form.
pub const G1_BYTES: usize = 196_608;

/// Bytes of the points of the second group.
pub const G2_BYTES: usize = 6_240;

/// The points of a trusted setup, as bytes.
#[derive(Debug)]
pub struct SetupPoints {
    pub g1_lagrange: Vec<u8>,
    pub g2_monomial: Vec<u8>,
    pub g1_monomial: Vec<u8>,
}

/// The points of a trusted setup, as contracts speak of them.
pub struct SetupPointsView {
    pub g1_lagrange: Seq<u8>,
    pub g2_monomial: Seq<u8>,
    pub g1_monomial: Seq<u8>,
}

impl View for SetupPoints {
    type V = SetupPointsView;

    open spec fn view(&self) -> SetupPointsView {
        SetupPointsView {
            g1_lagrange: self.g1_lagrange@,
            g2_monomial: self.g2_monomial@,
            g1_monomial: self.g1_monomial@,
        }
    }
}

/// Whether `b` is white space: a blank, or one of tab, line feed, vertical tab, form
/// feed and carriage return.
pub open spec fn is_space(b: u8) -> bool {
    b == 32 || 9 <= b <= 13
}

/// Whether `b` is a decimal digit.
pub open spec fn is_digit(b: u8) -> bool {
    48 <= b <= 57
}

/// The value of a hexadecimal digit.
pub open spec fn hex_value(b: u8) -> Option<int> {
    if 48 <= b <= 57 {
        Some(b - 48)
    } else if 97 <= b <= 102 {
        Some(b - 97 + 10)
    } else if 65 <= b <= 70 {
        Some(b - 65 + 10)
    } else {
        None
    }
}

/// The first position from `i` on that holds no white space.
pub open spec fn past_spaces(s: Seq<u8>, i: int) -> int
    decreases s.len() - i,
{
    if 0 <= i < s.len() && is_space(s[i]) {
        past_spaces(s, i + 1)
    } else {
        i
    }
}

/// The first position from `i` on that holds no digit.
pub open spec fn past_digits(s: Seq<u8>, i: int) -> int
    decreases s.len() - i,
{
    if 0 <= i < s.len() && is_digit(s[i]) {
        past_digits(s, i + 1)
    } else {
        i
    }
}

/// The number that decimal digits stand for.
pub open spec fn decimal(digits: Seq<u8>) -> nat
    decreases digits.len(),
{
    if digits.len() == 0 {
        0
    } else {
        decimal(digits.drop_last()) * 10 + (digits.last() - 48) as nat
    }
}

/// Where the text goes on behind the number `want`, if that is what comes at `i`.
pub open spec fn past_number(s: Seq<u8>, i: int, want: nat) -> Option<int> {
    let first = past_spaces(s, i);
    let end = past_digits(s, first);
    if first < end && decimal(s.subrange(first, end)) == want {
        Some(end)
    } else {
        None
    }
}

/// The byte that comes at `i`, of two hexadecimal digits or of one that stands
/// alone, and where the text goes on behind it.
pub open spec fn byte_at(s: Seq<u8>, i: int) -> Option<(u8, int)> {
    let j = past_spaces(s, i);
    if !(0 <= j < s.len()) {
        None
    } else {
        match hex_value(s[j]) {
            None => None,
            Some(high) => if j + 1 < s.len() && hex_value(s[j + 1]) is Some {
                Some(((16 * high + hex_value(s[j + 1])->0) as u8, j + 2))
            } else {
                Some((high as u8, j + 1))
            },
        }
    }
}

/// The `n` bytes that come at `i`, and where the text goes on behind them.
pub open spec fn bytes_at(s: Seq<u8>, i: int, n: nat) -> Option<(Seq<u8>, int)>
    decreases n,
{
    if n == 0 {
        Some((Seq::empty(), i))
    } else {
        match bytes_at(s, i, (n - 1) as nat) {
            None => None,
            Some((front, j)) => match byte_at(s, j) {
                None => None,
                Some((b, k)) => Some((front.push(b), k)),
            },
        }
    }
}

/// The points in the text of a trusted setup, if it has the form of one.
pub open spec fn setup_points(s: Seq<u8>) -> Option<SetupPointsView> {
    match past_number(s, 0, NUM_G1_POINTS as nat) {
        None => None,
        Some(a) => match past_number(s, a, NUM_G2_POINTS as nat) {
            None => None,
            Some(b) => match bytes_at(s, b, G1_BYTES as nat) {
                None => None,
                Some((g1_lagrange, c)) => match bytes_at(s, c, G2_BYTES as nat) {
                    None => None,
                    Some((g2_monomial, d)) => match bytes_at(s, d, G1_BYTES as nat) {
                        None => None,
                        Some((g1_monomial, _)) => Some(
                            SetupPointsView { g1_lagrange, g2_monomial, g1_monomial },
                        ),
                    },
                },
            },
        },
    }
}

fn skip_spaces(s: &Vec<u8>, i: usize) -> (r: usize)
    requires
        i <= s@.len(),
    ensures
        r == past_spaces(s@, i as int),
        i <= r <= s@.len(),
{
    let mut j: usize = i;
    while j < s.len() && (s[j] == 32 || 9 <= s[j] && s[j] <= 13)
        invariant
            i <= j <= s@.len(),
            past_spaces(s@, i as int) == past_spaces(s@, j as int),
        decreases s@.len() - j,
    {
        j = j + 1;
    }
    j
}

/// Larger than every number that a setup may begin with.
const TOO_LARGE: u64 = 1_000_000;

fn skip_number(s: &Vec<u8>, i: usize, want: u64) -> (r: Option<usize>)
    requires
        i <= s@.len(),
        want < TOO_LARGE,
    ensures
        match past_number(s@, i as int, want as nat) {
            Some(end) => r is Some && r->0 == end && i <= end <= s@.len(),
            None => r is None,
        },
{
    let first: usize = skip_spaces(s, i);
    let mut value: u64 = 0;
    let mut j: usize = first;
    assert(s@.subrange(first as int, first as int) =~= Seq::<u8>::empty());
    while j < s.len() && 48 <= s[j] && s[j] <= 57
        invariant
            first <= j <= s@.len(),
            past_digits(s@, first as int) == past_digits(s@, j as int),
            value <= TOO_LARGE,
            value < TOO_LARGE ==> value == decimal(s@.subrange(first as int, j as int)),
            value == TOO_LARGE ==> decimal(s@.subrange(first as int, j as int)) >= TOO_LARGE,
        decreases s@.len() - j,
    {
        assert(s@.subrange(first as int, j + 1).drop_last() =~= s@.subrange(first as int, j as int));
        assert(s@.subrange(first as int, j + 1).last() == s@[j as int]);
        let grown: u64 = value * 10 + (s[j] - 48) as u64;
        value = if value == TOO_LARGE || grown > TOO_LARGE {
            TOO_LARGE
        } else {
            grown
        };
        j = j + 1;
    }
    if first < j && value == want {
        Some(j)
    } else {
        None
    }
}

fn hex_digit(b: u8) -> (r: Option<u8>)
    ensures
        match hex_value(b) {
            Some(v) => r == Some(v as u8) && 0 <= v < 16,
            None => r is None,
        },
{
    if 48 <= b && b <= 57 {
        Some(b - 48)
    } else if 97 <= b && b <= 102 {
        Some(b - 97 + 10)
    } else if 65 <= b && b <= 70 {
        Some(b - 65 + 10)
    } else {
        None
    }
}

fn read_byte(s: &Vec<u8>, i: usize) -> (r: Option<(u8, usize)>)
    requires
        i <= s@.len(),
    ensures
        match byte_at(s@, i as int) {
            Some((b, end)) => {
                &&& r matches Some(got)
                &&& got.0 == b
                &&& got.1 == end
                &&& i <= end <= s@.len()
            },
            None => r is None,
        },
{
    let j: usize = skip_spaces(s, i);
    if j >= s.len() {
        return None;
    }
    match hex_digit(s[j]) {
        Some(high) => {
            if j + 1 < s.len() {
                if let Some(low) = hex_digit(s[j + 1]) {
                    return Some((16 * high + low, j + 2));
                }
            }
            Some((high, j + 1))
        },
        None => None,
    }
}

/// Where fewer bytes are missing, more are.
proof fn lemma_missing_bytes(s: Seq<u8>, i: int, few: nat, many: nat)
    requires
        few <= many,
        bytes_at(s, i, few) is None,
    ensures
        bytes_at(s, i, many) is None,
    decreases many,
{
    if few < many {
        lemma_missing_bytes(s, i, few, (many - 1) as nat);
    }
}

fn read_bytes(s: &Vec<u8>, i: usize, n: usize) -> (r: Option<(Vec<u8>, usize)>)
    requires
        i <= s@.len(),
    ensures
        match bytes_at(s@, i as int, n as nat) {
            Some((bytes, end)) => {
                &&& r matches Some(got)
                &&& got.0@ == bytes
                &&& got.1 == end
                &&& end <= s@.len()
                &&& bytes.len() == n
            },
            None => r is None,
        },
{
    let mut out: Vec<u8> = Vec::new();
    let mut j: usize = i;
    let mut k: usize = 0;
    while k < n
        invariant
            k <= n,
            i <= s@.len(),
            j <= s@.len(),
            out@.len() == k,
            bytes_at(s@, i as int, k as nat) == Some((out@, j as int)),
        decreases n - k,
    {
        match read_byte(s, j) {
            Some(got) => {
                out.push(got.0);
                j = got.1;
            },
            None => {
                proof {
                    assert(bytes_at(s@, i as int, (k + 1) as nat) is None);
                    lemma_missing_bytes(s@, i as int, (k + 1) as nat, n as nat);
                }
                return None;
            },
        }
        k = k + 1;
    }
    Some((out, j))
}

/// Reads the text of a trusted setup. Numbers have neither a sign nor a prefix.
pub fn read_setup(text: &Vec<u8>) -> (r: Option<SetupPoints>)
    ensures
        match setup_points(text@) {
            Some(points) => r is Some && r->0@ == points,
            None => r is None,
        },
        r matches Some(points) ==> points.g1_lagrange@.len() == G1_BYTES
            && points.g2_monomial@.len() == G2_BYTES && points.g1_monomial@.len() == G1_BYTES,
{
    let a: usize = match skip_number(text, 0, NUM_G1_POINTS as u64) {
        Some(a) => a,
        None => {
            return None;
        },
    };
    let b: usize = match skip_number(text, a, NUM_G2_POINTS as u64) {
        Some(b) => b,
        None => {
            return None;
        },
    };
    let lagrange: (Vec<u8>, usize) = match read_bytes(text, b, G1_BYTES) {
        Some(got) => got,
        None => {
            return None;
        },
    };
    let second: (Vec<u8>, usize) = match read_bytes(text, lagrange.1, G2_BYTES) {
        Some(got) => got,
        None => {
            return None;
        },
    };
    match read_bytes(text, second.1, G1_BYTES) {
        Some(monomial) => Some(
            SetupPoints {
                g1_lagrange: lagrange.0,
                g2_monomial: second.0,
                g1_monomial: monomial.0,
            },
        ),
        None => None,
    }
}

/// The hexadecimal digit for `v`.
pub open spec fn hex_char(v: int) -> u8 {
    if v < 10 {
        (48 + v) as u8
    } else {
        (97 + v - 10) as u8
    }
}

/// Bytes as pairs of hexadecimal digits.
pub open spec fn hex_text(bytes: Seq<u8>) -> Seq<u8>
    decreases bytes.len(),
{
    if bytes.len() == 0 {
        Seq::empty()
    } else {
        hex_text(bytes.drop_last()) + seq![
            hex_char(bytes.last() as int / 16),
            hex_char(bytes.last() as int % 16),
        ]
    }
}

/// Points that were written as pairs of hexadecimal digits are read back, wherever
/// they stand in the text.
pub proof fn points_are_read_back(front: Seq<u8>, bytes: Seq<u8>, back: Seq<u8>)
    ensures
        bytes_at(front + hex_text(bytes) + back, front.len() as int, bytes.len()) == Some(
            (bytes, front.len() as int + 2 * bytes.len()),
        ),
        hex_text(bytes).len() == 2 * bytes.len(),
    decreases bytes.len(),
{
    let s = front + hex_text(bytes) + back;
    let n = front.len() as int;
    if bytes.len() == 0 {
        assert(bytes =~= Seq::<u8>::empty());
    } else {
        let fewer = bytes.drop_last();
        let b = bytes.last();
        let pair = seq![hex_char(b as int / 16), hex_char(b as int % 16)];
        points_are_read_back(front, fewer, pair + back);
        assert(front + hex_text(fewer) + (pair + back) =~= s);
        let j = n + 2 * fewer.len();
        assert(s[j] == pair[0] && s[j + 1] == pair[1]);
        assert(hex_value(s[j]) == Some(b as int / 16));
        assert(hex_value(s[j + 1]) == Some(b as int % 16));
        assert(!is_space(s[j]));
        assert(past_spaces(s, j) == j);
        assert(byte_at(s, j) == Some((b, j + 2)));
        assert(fewer.push(b) =~= bytes);
    }
}

/// White space in front of bytes is skipped.
proof fn lemma_space_skipped(s: Seq<u8>, i: int, n: nat)
    requires
        0 <= i < s.len(),
        is_space(s[i]),
        n > 0,
    ensures
        bytes_at(s, i, n) == bytes_at(s, i + 1, n),
    decreases n,
{
    assert(past_spaces(s, i) == past_spaces(s, i + 1));
    if n == 1 {
        reveal_with_fuel(bytes_at, 2);
        assert(byte_at(s, i) == byte_at(s, i + 1));
    } else {
        lemma_space_skipped(s, i, (n - 1) as nat);
    }
}

/// The text of a setup, one part below the other.
pub open spec fn setup_text(points: SetupPointsView) -> Seq<u8> {
    seq![52u8, 48, 57, 54, 10, 54, 53, 10] + hex_text(points.g1_lagrange) + seq![10u8] + hex_text(
        points.g2_monomial,
    ) + seq![10u8] + hex_text(points.g1_monomial)
}

/// The two numbers at the head of a setup.
proof fn lemma_counts_read(s: Seq<u8>)
    requires
        s.len() >= 8,
        s[0] == 52,
        s[1] == 48,
        s[2] == 57,
        s[3] == 54,
        s[4] == 10,
        s[5] == 54,
        s[6] == 53,
        s[7] == 10,
    ensures
        past_number(s, 0, 4096) == Some(4int),
        past_number(s, 4, 65) == Some(7int),
{
    assert(past_spaces(s, 0) == 0);
    assert(past_digits(s, 4) == 4);
    assert(past_digits(s, 3) == 4);
    assert(past_digits(s, 2) == 4);
    assert(past_digits(s, 1) == 4);
    assert(past_digits(s, 0) == 4);
    assert(s.subrange(0, 4).drop_last() =~= s.subrange(0, 3));
    assert(s.subrange(0, 3).drop_last() =~= s.subrange(0, 2));
    assert(s.subrange(0, 2).drop_last() =~= s.subrange(0, 1));
    assert(s.subrange(0, 1).drop_last() =~= s.subrange(0, 0));
    assert(decimal(s.subrange(0, 0)) == 0);
    assert(decimal(s.subrange(0, 1)) == 4);
    assert(decimal(s.subrange(0, 2)) == 40);
    assert(decimal(s.subrange(0, 3)) == 409);
    assert(decimal(s.subrange(0, 4)) == 4096);
    assert(past_spaces(s, 5) == 5);
    assert(past_spaces(s, 4) == 5);
    assert(past_digits(s, 7) == 7);
    assert(past_digits(s, 6) == 7);
    assert(past_digits(s, 5) == 7);
    assert(s.subrange(5, 7).drop_last() =~= s.subrange(5, 6));
    assert(s.subrange(5, 6).drop_last() =~= s.subrange(5, 5));
    assert(decimal(s.subrange(5, 5)) == 0);
    assert(decimal(s.subrange(5, 6)) == 6);
    assert(decimal(s.subrange(5, 7)) == 65);
}

/// A setup that was written is read back, each part as what it is, whatever follows.
pub proof fn setups_are_read_back(points: SetupPointsView, rest: Seq<u8>)
    requires
        points.g1_lagrange.len() == 196_608,
        points.g2_monomial.len() == 6_240,
        points.g1_monomial.len() == 196_608,
    ensures
        setup_points(setup_text(points) + rest) == Some(points),
{
    let (l, g, m) = (points.g1_lagrange, points.g2_monomial, points.g1_monomial);
    let head = seq![52u8, 48, 57, 54, 10, 54, 53, 10];
    let nl = seq![10u8];
    let s = setup_text(points) + rest;
    points_are_read_back(head, l, nl + hex_text(g) + nl + hex_text(m) + rest);
    assert(s =~= head + hex_text(l) + (nl + hex_text(g) + nl + hex_text(m) + rest));
    let a: int = 8int + 2 * l.len();
    let front = head + hex_text(l) + nl;
    points_are_read_back(front, g, nl + hex_text(m) + rest);
    assert(s =~= front + hex_text(g) + (nl + hex_text(m) + rest));
    assert(s[a] == 10);
    lemma_space_skipped(s, a, 6_240);
    let b: int = a + 1 + 2 * g.len();
    let more = front + hex_text(g) + nl;
    points_are_read_back(more, m, rest);
    assert(s =~= more + hex_text(m) + rest);
    assert(s[b] == 10);
    lemma_space_skipped(s, b, 196_608);
    lemma_counts_read(s);
    lemma_space_skipped(s, 7, 196_608);
}

} // verus!
