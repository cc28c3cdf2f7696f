//! Text building blocks: decimal numerals, whitespace trimming, paths.

use vstd::prelude::*;

verus! {

/// The ASCII character of the decimal digit `d`.
pub open spec fn digit_char(d: nat) -> char {
    ((48 + d) as u8) as char
}

/// The decimal numeral of `n`, without leading zeros.
pub open spec fn dec(n: nat) -> Seq<char>
    decreases n,
{
    if n < 10 {
        seq![digit_char(n)]
    } else {
        dec(n / 10).push(digit_char(n % 10))
    }
}

/// `count` zero characters.
pub open spec fn zeros(count: nat) -> Seq<char> {
    Seq::new(count, |i: int| '0')
}

/// The decimal numeral of `n`, filled with zeros on the left up to `width`.
pub open spec fn dec_padded(n: nat, width: nat) -> Seq<char> {
    if dec(n).len() >= width {
        dec(n)
    } else {
        zeros((width - dec(n).len()) as nat) + dec(n)
    }
}

/// The number that a sequence of decimal digits stands for.
pub open spec fn dec_value(s: Seq<char>) -> nat
    decreases s.len(),
{
    if s.len() == 0 {
        0
    } else {
        dec_value(s.drop_last()) * 10 + ((s.last() as u32) - 48) as nat
    }
}

/// Whether every character of `s` is a decimal digit.
pub open spec fn all_digits(s: Seq<char>) -> bool {
    forall|i: int| 0 <= i < s.len() ==> '0' <= #[trigger] s[i] <= '9'
}

/// A numeral is a nonempty run of digits that reads back as the number it was
/// written for.
pub proof fn lemma_dec(n: nat)
    ensures
        dec(n).len() >= 1,
        all_digits(dec(n)),
        dec_value(dec(n)) == n,
    decreases n,
{
    if n < 10 {
        let s = seq![digit_char(n)];
        assert(s.drop_last() =~= Seq::<char>::empty());
        assert(dec_value(s.drop_last()) == 0);
        assert(s.last() as u32 == 48 + n);
    } else {
        lemma_dec(n / 10);
        let s = dec(n);
        let d = digit_char(n % 10);
        assert(d as u32 == 48 + n % 10);
        assert(s.drop_last() =~= dec(n / 10));
        assert(s.last() == d);
        assert forall|i: int| 0 <= i < s.len() implies '0' <= #[trigger] s[i] <= '9' by {
            if i < s.len() - 1 {
                assert(s[i] == dec(n / 10)[i]);
            }
        }
    }
}

/// Two numbers written with the same numeral are the same number.
pub proof fn lemma_dec_injective(a: nat, b: nat)
    requires
        dec(a) == dec(b),
    ensures
        a == b,
{
    lemma_dec(a);
    lemma_dec(b);
}

/// The digit `d` as text.
fn digit_str(d: u64) -> (r: &'static str)
    requires
        d < 10,
    ensures
        r@ == seq![digit_char(d as nat)],
{
    proof {
        reveal_strlit("0");
        reveal_strlit("1");
        reveal_strlit("2");
        reveal_strlit("3");
        reveal_strlit("4");
        reveal_strlit("5");
        reveal_strlit("6");
        reveal_strlit("7");
        reveal_strlit("8");
        reveal_strlit("9");
    }
    let r = if d == 0 {
        "0"
    } else if d == 1 {
        "1"
    } else if d == 2 {
        "2"
    } else if d == 3 {
        "3"
    } else if d == 4 {
        "4"
    } else if d == 5 {
        "5"
    } else if d == 6 {
        "6"
    } else if d == 7 {
        "7"
    } else if d == 8 {
        "8"
    } else {
        "9"
    };
    assert(r@ =~= seq![digit_char(d as nat)]);
    r
}

/// Appends the decimal numeral of `n` to `out`.
pub fn push_dec(out: &mut String, n: u64)
    ensures
        final(out)@ == old(out)@ + dec(n as nat),
    decreases n,
{
    if n < 10 {
        out.append(digit_str(n));
    } else {
        push_dec(out, n / 10);
        out.append(digit_str(n % 10));
        assert(out@ =~= old(out)@ + dec(n as nat));
    }
}

/// Appends the decimal numeral of `n` to `out`.
pub fn push_dec_wide(out: &mut String, n: u128)
    ensures
        final(out)@ == old(out)@ + dec(n as nat),
    decreases n,
{
    if n < 10 {
        out.append(digit_str(n as u64));
    } else {
        push_dec_wide(out, n / 10);
        out.append(digit_str((n % 10) as u64));
        assert(out@ =~= old(out)@ + dec(n as nat));
    }
}

/// Appends the decimal numeral of `n`, filled with zeros up to `width`.
pub fn push_dec_padded(out: &mut String, n: u64, width: usize)
    ensures
        final(out)@ == old(out)@ + dec_padded(n as nat, width as nat),
{
    let mut numeral = String::new();
    push_dec(&mut numeral, n);
    assert(numeral@ =~= dec(n as nat));
    let have: usize = numeral.as_str().unicode_len();
    let mut i: usize = have;
    proof {
        reveal_strlit("0");
    }
    while i < width
        invariant
            have == dec(n as nat).len(),
            i <= width || i == have,
            have <= i,
            out@ == old(out)@ + zeros((i - have) as nat),
            "0"@ =~= seq!['0'],
        decreases width - i,
    {
        out.append("0");
        i = i + 1;
        assert(out@ =~= old(out)@ + zeros((i - have) as nat));
    }
    let ghost before = out@;
    out.append(numeral.as_str());
    assert(out@ =~= old(out)@ + dec_padded(n as nat, width as nat));
}

/// Whether `c` has the Unicode property White_Space.
pub open spec fn white_space(c: char) -> bool {
    let u = c as u32;
    ||| 0x9 <= u <= 0xd
    ||| u == 0x20
    ||| u == 0x85
    ||| u == 0xa0
    ||| u == 0x1680
    ||| 0x2000 <= u <= 0x200a
    ||| u == 0x2028
    ||| u == 0x2029
    ||| u == 0x202f
    ||| u == 0x205f
    ||| u == 0x3000
}

/// Whether `c` has the Unicode property White_Space.
pub fn is_white_space(c: char) -> (r: bool)
    ensures
        r == white_space(c),
{
    let u: u32 = c as u32;
    (0x9 <= u && u <= 0xd) || u == 0x20 || u == 0x85 || u == 0xa0 || u == 0x1680 || (0x2000 <= u
        && u <= 0x200a) || u == 0x2028 || u == 0x2029 || u == 0x202f || u == 0x205f || u == 0x3000
}

/// `s` without its leading white space.
pub open spec fn trim_start(s: Seq<char>) -> Seq<char>
    decreases s.len(),
{
    if s.len() > 0 && white_space(s[0]) {
        trim_start(s.drop_first())
    } else {
        s
    }
}

/// `s` without its trailing white space.
pub open spec fn trim_end(s: Seq<char>) -> Seq<char>
    decreases s.len(),
{
    if s.len() > 0 && white_space(s.last()) {
        trim_end(s.drop_last())
    } else {
        s
    }
}

/// `s` without leading and trailing white space.
pub open spec fn trimmed(s: Seq<char>) -> Seq<char> {
    trim_end(trim_start(s))
}

/// The characters of `s`.
pub fn chars_of(s: &str) -> (r: Vec<char>)
    ensures
        r@ == s@,
{
    let mut r: Vec<char> = Vec::new();
    for c in it: s.chars()
        invariant
            it.seq() == s@,
            r.len() == it.index(),
            forall|j: int| 0 <= j < r.len() ==> r[j] == it.seq()[j],
    {
        r.push(c);
    }
    assert(r@ =~= s@);
    r
}

/// `s` without leading and trailing white space.
pub fn trim(s: &str) -> (r: &str)
    ensures
        r@ == trimmed(s@),
{
    let cs: Vec<char> = chars_of(s);
    let n: usize = cs.len();
    let mut i: usize = 0;
    proof {
        assert(s@.subrange(0, n as int) =~= s@);
    }
    while i < n && is_white_space(cs[i])
        invariant
            cs@ == s@,
            n == cs.len(),
            i <= n,
            trim_start(s@) == trim_start(s@.subrange(i as int, n as int)),
        decreases n - i,
    {
        assert(s@.subrange(i as int, n as int).drop_first() =~= s@.subrange(i + 1, n as int));
        i = i + 1;
    }
    let ghost head = s@.subrange(i as int, n as int);
    assert(trim_start(s@) == head);
    let mut j: usize = n;
    while j > i && is_white_space(cs[j - 1])
        invariant
            cs@ == s@,
            n == cs.len(),
            i <= j <= n,
            head == s@.subrange(i as int, n as int),
            trim_end(head) == trim_end(s@.subrange(i as int, j as int)),
        decreases j,
    {
        assert(s@.subrange(i as int, j as int).drop_last() =~= s@.subrange(i as int, j - 1));
        j = j - 1;
    }
    s.substring_char(i, j)
}

/// The text that `bytes` encode in UTF-8, by `String::from_utf8`; none where they
/// are not valid UTF-8.
#[verifier::external_body]
pub(crate) fn string_from_utf8(bytes: Vec<u8>) -> (r: Option<String>)
    ensures
        match r {
            Some(s) => vstd::utf8::valid_utf8(bytes@) && s@ == vstd::utf8::decode_utf8(bytes@),
            None => !vstd::utf8::valid_utf8(bytes@),
        },
{
    String::from_utf8(bytes).ok()
}

/// Whether `a` and `b` hold the same characters.
pub fn same_text(a: &str, b: &str) -> (r: bool)
    ensures
        r == (a@ == b@),
{
    a.to_owned() == b.to_owned()
}

/// `rel` resolved below the directory `base`, with `/` as the separator: an
/// absolute `rel` stands for itself, and a separator is added only where `base`
/// is nonempty and does not end in one.
pub open spec fn joined_path(base: Seq<char>, rel: Seq<char>) -> Seq<char> {
    if rel.len() > 0 && rel[0] == '/' {
        rel
    } else if base.len() == 0 || base.last() == '/' {
        base + rel
    } else {
        base + "/"@ + rel
    }
}

/// `rel` resolved below the directory `base`.
pub fn join_path(base: &str, rel: &str) -> (r: String)
    ensures
        r@ == joined_path(base@, rel@),
{
    if rel.unicode_len() > 0 && rel.get_char(0) == '/' {
        return rel.to_owned();
    }
    let n: usize = base.unicode_len();
    let mut r: String = base.to_owned();
    if n > 0 && base.get_char(n - 1) != '/' {
        r.append("/");
    }
    r.append(rel);
    r
}

/// `s` cut at the first place where `stop` stands, for two texts that start
/// with a run free of `stop`: equal texts have equal runs and equal rests.
pub proof fn lemma_cut_at(a1: Seq<char>, b1: Seq<char>, a2: Seq<char>, b2: Seq<char>, stop: char)
    requires
        forall|i: int| 0 <= i < a1.len() ==> #[trigger] a1[i] != stop,
        forall|i: int| 0 <= i < a2.len() ==> #[trigger] a2[i] != stop,
        b1.len() > 0,
        b2.len() > 0,
        b1[0] == stop,
        b2[0] == stop,
        a1 + b1 == a2 + b2,
    ensures
        a1 == a2,
        b1 == b2,
{
    let s = a1 + b1;
    assert(s[a1.len() as int] == stop);
    assert((a2 + b2)[a2.len() as int] == stop);
    if a1.len() < a2.len() {
        assert((a2 + b2)[a1.len() as int] == a2[a1.len() as int]);
    } else if a2.len() < a1.len() {
        assert(s[a2.len() as int] == a1[a2.len() as int]);
    }
    assert(a1 =~= s.subrange(0, a1.len() as int));
    assert(a2 =~= s.subrange(0, a1.len() as int));
    assert(b1 =~= s.subrange(a1.len() as int, s.len() as int));
    assert(b2 =~= s.subrange(a1.len() as int, s.len() as int));
}

/// The length of the run at the start of `s` that holds no white space.
pub open spec fn word_len(s: Seq<char>) -> nat
    decreases s.len(),
{
    if s.len() == 0 || white_space(s[0]) {
        0
    } else {
        1 + word_len(s.drop_first())
    }
}

pub proof fn lemma_word_len(s: Seq<char>)
    ensures
        word_len(s) <= s.len(),
        s.len() > 0 && !white_space(s[0]) ==> word_len(s) >= 1,
    decreases s.len(),
{
    if s.len() > 0 && !white_space(s[0]) {
        lemma_word_len(s.drop_first());
    }
}

pub proof fn lemma_trim_start(s: Seq<char>)
    ensures
        trim_start(s).len() <= s.len(),
        trim_start(s).len() > 0 ==> !white_space(trim_start(s)[0]),
    decreases s.len(),
{
    if s.len() > 0 && white_space(s[0]) {
        lemma_trim_start(s.drop_first());
    }
}

/// The words of `s`: its maximal runs without white space, in order.
pub open spec fn words_of(s: Seq<char>) -> Seq<Seq<char>>
    decreases s.len(),
    via words_of_decreases
{
    let t = trim_start(s);
    if t.len() == 0 {
        Seq::empty()
    } else {
        seq![t.take(word_len(t) as int)] + words_of(t.skip(word_len(t) as int))
    }
}

#[via_fn]
proof fn words_of_decreases(s: Seq<char>) {
    lemma_trim_start(s);
    lemma_word_len(trim_start(s));
}

/// The words of `s`.
pub fn words(s: &str) -> (r: Vec<String>)
    ensures
        r@.map_values(|w: String| w@) == words_of(s@),
{
    let cs: Vec<char> = chars_of(s);
    let n: usize = cs.len();
    let mut r: Vec<String> = Vec::new();
    let mut i: usize = 0;
    assert(s@.skip(0) =~= s@);
    assert(r@.map_values(|w: String| w@) + words_of(s@) =~= words_of(s@));
    while i < n
        invariant
            cs@ == s@,
            i <= n == cs.len(),
            r@.map_values(|w: String| w@) + words_of(s@.skip(i as int)) == words_of(s@),
        decreases n - i,
    {
        let ghost rest = s@.skip(i as int);
        if is_white_space(cs[i]) {
            proof {
                assert(rest.drop_first() =~= s@.skip(i + 1));
                assert(trim_start(rest) == trim_start(s@.skip(i + 1)));
            }
            i = i + 1;
        } else {
            let mut j: usize = i;
            assert(rest == s@.skip(j as int));
            while j < n && !is_white_space(cs[j])
                invariant
                    cs@ == s@,
                    i <= j <= n == cs.len(),
                    word_len(s@.skip(i as int)) == j - i + word_len(s@.skip(j as int)),
                decreases n - j,
            {
                assert(s@.skip(j as int).drop_first() =~= s@.skip(j + 1));
                j = j + 1;
            }
            proof {
                assert(trim_start(rest) == rest);
                assert(word_len(rest) == j - i);
                assert(word_len(rest) >= 1) by {
                    lemma_word_len(rest);
                }
                assert(rest.take(j - i) =~= s@.subrange(i as int, j as int));
                assert(rest.skip(j - i) =~= s@.skip(j as int));
            }
            let ghost before = r@.map_values(|w: String| w@);
            r.push(s.substring_char(i, j).to_owned());
            proof {
                assert(r@.map_values(|w: String| w@) =~= before.push(rest.take(j - i)));
                assert(before.push(rest.take(j - i)) + words_of(s@.skip(j as int)) =~= before + (
                seq![rest.take(j - i)] + words_of(s@.skip(j as int))));
            }
            i = j;
        }
    }
    proof {
        assert(s@.skip(n as int) =~= Seq::<char>::empty());
        assert(words_of(s@.skip(n as int)) =~= Seq::<Seq<char>>::empty());
        assert(r@.map_values(|w: String| w@) + words_of(s@.skip(n as int)) =~= r@.map_values(
            |w: String| w@,
        ));
    }
    r
}

/// The number that a text stands for: decimal digits, perhaps behind a plus
/// sign, that fit in 64 bits.
pub open spec fn number_of(s: Seq<char>) -> Option<u64> {
    let digits = if s.len() > 0 && s[0] == '+' {
        s.drop_first()
    } else {
        s
    };
    if digits.len() > 0 && all_digits(digits) && dec_value(digits) <= u64::MAX {
        Some(dec_value(digits) as u64)
    } else {
        None
    }
}

proof fn lemma_dec_value_grows(s: Seq<char>, i: int)
    requires
        0 <= i <= s.len(),
        all_digits(s),
    ensures
        dec_value(s.take(i)) <= dec_value(s),
    decreases s.len(),
{
    if i == s.len() {
        assert(s.take(i) =~= s);
    } else {
        assert(all_digits(s.drop_last())) by {
            assert forall|k: int| 0 <= k < s.drop_last().len() implies '0'
                <= #[trigger] s.drop_last()[k] <= '9' by {
                assert(s.drop_last()[k] == s[k]);
            }
        }
        lemma_dec_value_grows(s.drop_last(), i);
        assert(s.drop_last().take(i) =~= s.take(i));
    }
}

/// The number that `s` stands for.
pub fn parse_u64(s: &str) -> (r: Option<u64>)
    ensures
        r == number_of(s@),
{
    let cs: Vec<char> = chars_of(s);
    let n: usize = cs.len();
    let start: usize = if n > 0 && cs[0] == '+' {
        1
    } else {
        0
    };
    let ghost digits = s@.skip(start as int);
    assert(start == 1 ==> s@.drop_first() =~= digits);
    assert(start == 0 ==> s@ =~= digits);
    if start == n {
        return None;
    }
    let mut v: u64 = 0;
    let mut i: usize = start;
    assert(digits.take(0) =~= Seq::<char>::empty());
    while i < n
        invariant
            cs@ == s@,
            start <= i <= n == cs.len(),
            digits == s@.skip(start as int),
            digits == if s@.len() > 0 && s@[0] == '+' {
                s@.drop_first()
            } else {
                s@
            },
            v == dec_value(digits.take(i - start)),
            forall|k: int| 0 <= k < i - start ==> '0' <= #[trigger] digits[k] <= '9',
        decreases n - i,
    {
        let c: char = cs[i];
        assert(digits[i - start] == c);
        if c < '0' || c > '9' {
            return None;
        }
        let d: u64 = (c as u32 - 48) as u64;
        proof {
            let more = digits.take(i - start + 1);
            assert(more.drop_last() =~= digits.take(i - start));
            assert(more.last() == c);
            if all_digits(digits) {
                lemma_dec_value_grows(digits, i - start + 1);
            }
        }
        match v.checked_mul(10) {
            Some(ten) => match ten.checked_add(d) {
                Some(sum) => {
                    v = sum;
                },
                None => {
                    return None;
                },
            },
            None => {
                return None;
            },
        }
        i = i + 1;
    }
    assert(digits.take(n - start) =~= digits);
    Some(v)
}

/// The first position from `i` on where `s` holds `c`, or its length.
pub open spec fn position_from(s: Seq<char>, c: char, i: int) -> int
    decreases s.len() - i,
{
    if i < 0 || i >= s.len() || s[i] == c {
        i
    } else {
        position_from(s, c, i + 1)
    }
}

pub proof fn lemma_position_from(s: Seq<char>, c: char, i: int)
    requires
        0 <= i <= s.len(),
    ensures
        i <= position_from(s, c, i) <= s.len(),
    decreases s.len() - i,
{
    if i < s.len() && s[i] != c {
        lemma_position_from(s, c, i + 1);
    }
}

/// The pieces of `s` between the characters `c`, from position `i` on.
pub open spec fn pieces_from(s: Seq<char>, c: char, i: int) -> Seq<Seq<char>>
    decreases s.len() - i,
    via pieces_from_decreases
{
    if i < 0 || i > s.len() {
        Seq::empty()
    } else {
        let j = position_from(s, c, i);
        if j < s.len() {
            seq![s.subrange(i, j)] + pieces_from(s, c, j + 1)
        } else {
            seq![s.subrange(i, s.len() as int)]
        }
    }
}

#[via_fn]
proof fn pieces_from_decreases(s: Seq<char>, c: char, i: int) {
    if 0 <= i <= s.len() {
        lemma_position_from(s, c, i);
    }
}

/// The pieces of `s` between the characters `c`.
pub fn split_on(s: &str, c: char) -> (r: Vec<String>)
    ensures
        r@.map_values(|w: String| w@) == pieces_from(s@, c, 0),
{
    let cs: Vec<char> = chars_of(s);
    let n: usize = cs.len();
    let mut r: Vec<String> = Vec::new();
    let mut i: usize = 0;
    let mut j: usize = 0;
    assert(r@.map_values(|w: String| w@) + pieces_from(s@, c, 0) =~= pieces_from(s@, c, 0));
    while j < n
        invariant
            cs@ == s@,
            i <= j <= n == cs.len(),
            position_from(s@, c, i as int) == position_from(s@, c, j as int),
            r@.map_values(|w: String| w@) + pieces_from(s@, c, i as int) == pieces_from(s@, c, 0),
        decreases n - j,
    {
        if cs[j] == c {
            let ghost before = r@.map_values(|w: String| w@);
            r.push(s.substring_char(i, j).to_owned());
            proof {
                let piece = s@.subrange(i as int, j as int);
                assert(r@.map_values(|w: String| w@) =~= before.push(piece));
                assert(before.push(piece) + pieces_from(s@, c, j + 1) =~= before + (seq![piece]
                    + pieces_from(s@, c, j + 1)));
            }
            i = j + 1;
        }
        j = j + 1;
    }
    let ghost before = r@.map_values(|w: String| w@);
    r.push(s.substring_char(i, n).to_owned());
    proof {
        let piece = s@.subrange(i as int, n as int);
        assert(r@.map_values(|w: String| w@) =~= before.push(piece));
        assert(before.push(piece) =~= before + seq![piece]);
    }
    r
}

/// The lines of `s` from position `i` on. A line ends at a line feed, which is
/// not part of it, nor is a carriage return before it.
pub open spec fn lines_from(s: Seq<char>, i: int) -> Seq<Seq<char>>
    decreases s.len() - i,
    via lines_from_decreases
{
    if i < 0 || i >= s.len() {
        Seq::empty()
    } else {
        let j = position_from(s, '\n', i);
        seq![line_text(s, i, j)] + lines_from(
            s,
            if j < s.len() {
                j + 1
            } else {
                j
            },
        )
    }
}

#[via_fn]
proof fn lines_from_decreases(s: Seq<char>, i: int) {
    if 0 <= i < s.len() {
        lemma_position_from(s, '\n', i);
    }
}

/// The line of `s` from `i` to its end at `j`.
pub open spec fn line_text(s: Seq<char>, i: int, j: int) -> Seq<char> {
    if i < j < s.len() && s[j - 1] == '\r' {
        s.subrange(i, j - 1)
    } else {
        s.subrange(i, j)
    }
}

/// The lines of `s`.
pub fn lines(s: &str) -> (r: Vec<String>)
    ensures
        r@.map_values(|w: String| w@) == lines_from(s@, 0),
{
    let cs: Vec<char> = chars_of(s);
    let n: usize = cs.len();
    let mut r: Vec<String> = Vec::new();
    let mut i: usize = 0;
    assert(r@.map_values(|w: String| w@) + lines_from(s@, 0) =~= lines_from(s@, 0));
    while i < n
        invariant
            cs@ == s@,
            n == cs.len(),
            i <= n,
            r@.map_values(|w: String| w@) + lines_from(s@, i as int) == lines_from(s@, 0),
        decreases n - i,
    {
        let mut j: usize = i;
        while j < n && cs[j] != '\n'
            invariant
                cs@ == s@,
                i <= j <= n == cs.len(),
                position_from(s@, '\n', i as int) == position_from(s@, '\n', j as int),
            decreases n - j,
        {
            j = j + 1;
        }
        let end: usize = if i < j && j < n && cs[j - 1] == '\r' {
            j - 1
        } else {
            j
        };
        let ghost before = r@.map_values(|w: String| w@);
        r.push(s.substring_char(i, end).to_owned());
        proof {
            let line = line_text(s@, i as int, j as int);
            let next = if j < n {
                j + 1
            } else {
                j as int
            };
            assert(r@.map_values(|w: String| w@) =~= before.push(line));
            assert(before.push(line) + lines_from(s@, next) =~= before + (seq![line] + lines_from(
                s@,
                next,
            )));
        }
        i = if j < n {
            j + 1
        } else {
            n
        };
    }
    assert(r@.map_values(|w: String| w@) + lines_from(s@, n as int) =~= r@.map_values(
        |w: String| w@,
    ));
    r
}

/// What follows `head` in `s`; none where `s` does not start with it.
pub open spec fn after_prefix(s: Seq<char>, head: Seq<char>) -> Option<Seq<char>> {
    if head.len() <= s.len() && s.take(head.len() as int) == head {
        Some(s.skip(head.len() as int))
    } else {
        None
    }
}

/// What follows `head` in `s`.
pub fn strip_prefix<'a>(s: &'a str, head: &str) -> (r: Option<&'a str>)
    ensures
        match r {
            Some(rest) => after_prefix(s@, head@) == Some(rest@),
            None => after_prefix(s@, head@) is None,
        },
{
    let n: usize = s.unicode_len();
    let k: usize = head.unicode_len();
    if k <= n && same_text(s.substring_char(0, k), head) {
        assert(s@.subrange(0, k as int) =~= s@.take(k as int));
        assert(s@.subrange(k as int, n as int) =~= s@.skip(k as int));
        return Some(s.substring_char(k, n));
    }
    assert(k <= n ==> s@.subrange(0, k as int) =~= s@.take(k as int));
    None
}

/// Whether `part` stands in `s` from position `i` on.
pub open spec fn stands_at(s: Seq<char>, part: Seq<char>, i: int) -> bool {
    0 <= i && i + part.len() <= s.len() && s.subrange(i, i + part.len()) == part
}

/// Whether `part` stands somewhere in `s`.
pub open spec fn contains_text(s: Seq<char>, part: Seq<char>) -> bool {
    exists|i: int| stands_at(s, part, i)
}

/// Whether `part` stands somewhere in `s`.
pub fn contains(s: &str, part: &str) -> (r: bool)
    ensures
        r == contains_text(s@, part@),
{
    let n: usize = s.unicode_len();
    let m: usize = part.unicode_len();
    if m > n {
        return false;
    }
    let last: usize = n - m;
    let mut i: usize = 0;
    while i < last
        invariant
            n == s@.len(),
            m == part@.len(),
            last == n - m,
            i <= last,
            forall|j: int| 0 <= j < i ==> !#[trigger] stands_at(s@, part@, j),
        decreases last - i,
    {
        if same_text(s.substring_char(i, i + m), part) {
            assert(stands_at(s@, part@, i as int));
            return true;
        }
        i = i + 1;
    }
    let found: bool = same_text(s.substring_char(last, n), part);
    assert(found == stands_at(s@, part@, last as int));
    found
}

/// Whether `a` comes before `b` in the order of text.
pub open spec fn text_before(a: Seq<char>, b: Seq<char>) -> bool {
    ||| a.len() < b.len() && a == b.take(a.len() as int)
    ||| exists|i: int|
        0 <= i < a.len() && i < b.len() && a.take(i) == b.take(i) && #[trigger] a[i] < #[trigger] b[i]
}

/// Numerals of the same length that stand for the same number are the same, and
/// otherwise their order is that of the numbers.
pub proof fn lemma_numeral_order(a: Seq<char>, b: Seq<char>)
    requires
        a.len() == b.len(),
        all_digits(a),
        all_digits(b),
    ensures
        dec_value(a) == dec_value(b) ==> a == b,
        dec_value(a) < dec_value(b) ==> text_before(a, b),
    decreases a.len(),
{
    if a.len() == 0 {
        assert(a =~= b);
    } else {
        let (x, y) = (a.drop_last(), b.drop_last());
        assert(all_digits(x)) by {
            assert forall|i: int| 0 <= i < x.len() implies '0' <= #[trigger] x[i] <= '9' by {
                assert(x[i] == a[i]);
            }
        }
        assert(all_digits(y)) by {
            assert forall|i: int| 0 <= i < y.len() implies '0' <= #[trigger] y[i] <= '9' by {
                assert(y[i] == b[i]);
            }
        }
        lemma_numeral_order(x, y);
        let n = a.len() - 1;
        assert('0' <= a[n] <= '9');
        assert('0' <= b[n] <= '9');
        assert(a.last() == a[n] && b.last() == b[n]);
        if dec_value(a) == dec_value(b) {
            assert(dec_value(x) == dec_value(y));
            assert(a[n] == b[n]);
            assert(a =~= x.push(a[n]));
            assert(b =~= y.push(b[n]));
        } else if dec_value(a) < dec_value(b) {
            if dec_value(x) < dec_value(y) {
                assert(text_before(x, y));
                let i = choose|i: int|
                    0 <= i < x.len() && i < y.len() && x.take(i) == y.take(i) && #[trigger] x[i]
                        < #[trigger] y[i];
                assert(a.take(i) =~= x.take(i));
                assert(b.take(i) =~= y.take(i));
                assert(a[i] < b[i]);
            } else {
                assert(dec_value(x) == dec_value(y));
                assert(a.take(n) =~= x);
                assert(b.take(n) =~= y);
                assert(a[n] < b[n]);
            }
        }
    }
}

/// Leading zeros do not change the number.
proof fn lemma_leading_zeros(count: nat, s: Seq<char>)
    requires
        all_digits(s),
    ensures
        dec_value(zeros(count) + s) == dec_value(s),
    decreases count + s.len(),
{
    let t = zeros(count) + s;
    if s.len() > 0 {
        assert(t.drop_last() =~= zeros(count) + s.drop_last());
        assert(all_digits(s.drop_last())) by {
            assert forall|i: int| 0 <= i < s.drop_last().len() implies '0' <= #[trigger] s.drop_last()[i]
                <= '9' by {
                assert(s.drop_last()[i] == s[i]);
            }
        }
        lemma_leading_zeros(count, s.drop_last());
    } else if count > 0 {
        assert(t.drop_last() =~= zeros((count - 1) as nat) + s);
        lemma_leading_zeros((count - 1) as nat, s);
        assert(t.last() == '0');
    } else {
        assert(t =~= s);
    }
}

/// A numeral filled up to `width` is a run of digits that stands for its number.
pub proof fn lemma_dec_padded(n: nat, width: nat)
    requires
        dec(n).len() <= width,
    ensures
        dec_padded(n, width).len() == width,
        all_digits(dec_padded(n, width)),
        dec_value(dec_padded(n, width)) == n,
{
    lemma_dec(n);
    let count = (width - dec(n).len()) as nat;
    lemma_leading_zeros(count, dec(n));
    if count == 0 {
        assert(zeros(0) + dec(n) =~= dec(n));
    }
    let t = dec_padded(n, width);
    assert forall|i: int| 0 <= i < t.len() implies '0' <= #[trigger] t[i] <= '9' by {
        if i >= count {
            assert(t[i] == dec(n)[i - count]);
        }
    }
}

/// The order of two texts of the same length is that of any longer texts that
/// they begin.
pub proof fn lemma_order_of_beginnings(a: Seq<char>, b: Seq<char>, x: Seq<char>, y: Seq<char>)
    requires
        a.len() == b.len(),
        text_before(a, b),
    ensures
        text_before(a + x, b + y),
{
    let i = choose|i: int|
        0 <= i < a.len() && i < b.len() && a.take(i) == b.take(i) && #[trigger] a[i] < #[trigger] b[i];
    assert((a + x).take(i) =~= a.take(i));
    assert((b + y).take(i) =~= b.take(i));
    assert((a + x)[i] < (b + y)[i]);
}

/// A common beginning does not change the order of two texts of the same length.
pub proof fn lemma_order_of_ends(a: Seq<char>, x: Seq<char>, y: Seq<char>)
    requires
        x.len() == y.len(),
        text_before(x, y),
    ensures
        text_before(a + x, a + y),
{
    let i = choose|i: int|
        0 <= i < x.len() && i < y.len() && x.take(i) == y.take(i) && #[trigger] x[i] < #[trigger] y[i];
    let j = a.len() + i;
    assert((a + x).take(j) =~= a + x.take(i));
    assert((a + y).take(j) =~= a + y.take(i));
    assert((a + x)[j] < (a + y)[j]);
}

/// Trimming takes white space off both ends and nothing else.
pub proof fn trimming_keeps_the_text(front: Seq<char>, s: Seq<char>, back: Seq<char>)
    requires
        forall|i: int| 0 <= i < front.len() ==> white_space(#[trigger] front[i]),
        forall|i: int| 0 <= i < back.len() ==> white_space(#[trigger] back[i]),
        s.len() > 0,
        !white_space(s[0]),
        !white_space(s.last()),
    ensures
        trimmed(front + s + back) == s,
{
    lemma_trimmed_front(front, s + back);
    assert(front + s + back =~= front + (s + back));
    lemma_trimmed_back(s, back);
}

proof fn lemma_trimmed_front(front: Seq<char>, s: Seq<char>)
    requires
        forall|i: int| 0 <= i < front.len() ==> white_space(#[trigger] front[i]),
        s.len() > 0,
        !white_space(s[0]),
    ensures
        trim_start(front + s) == s,
    decreases front.len(),
{
    let t = front + s;
    if front.len() == 0 {
        assert(t =~= s);
    } else {
        assert(t[0] == front[0]);
        let fewer = front.drop_first();
        assert forall|i: int| 0 <= i < fewer.len() implies white_space(#[trigger] fewer[i]) by {
            assert(fewer[i] == front[i + 1]);
        }
        assert(t.drop_first() =~= fewer + s);
        lemma_trimmed_front(fewer, s);
    }
}

proof fn lemma_trimmed_back(s: Seq<char>, back: Seq<char>)
    requires
        forall|i: int| 0 <= i < back.len() ==> white_space(#[trigger] back[i]),
        s.len() > 0,
        !white_space(s.last()),
    ensures
        trim_end(s + back) == s,
    decreases back.len(),
{
    let t = s + back;
    if back.len() == 0 {
        assert(t =~= s);
    } else {
        assert(t.last() == back.last());
        assert(white_space(back[back.len() - 1]));
        assert(t.drop_last() =~= s + back.drop_last());
        lemma_trimmed_back(s, back.drop_last());
    }
}

/// Pieces one after the other, with `c` between them.
pub open spec fn rejoined(pieces: Seq<Seq<char>>, c: char) -> Seq<char>
    decreases pieces.len(),
{
    if pieces.len() == 0 {
        Seq::empty()
    } else if pieces.len() == 1 {
        pieces[0]
    } else {
        pieces[0].push(c) + rejoined(pieces.drop_first(), c)
    }
}

/// Splitting loses nothing: the pieces, put together again, are the text, and no
/// piece holds the separator.
pub proof fn splitting_loses_nothing(s: Seq<char>, c: char, i: int)
    requires
        0 <= i <= s.len(),
    ensures
        rejoined(pieces_from(s, c, i), c) == s.skip(i),
        forall|k: int|
            0 <= k < pieces_from(s, c, i).len() ==> !(#[trigger] pieces_from(s, c, i)[k]).contains(c),
        pieces_from(s, c, i).len() >= 1,
    decreases s.len() - i,
{
    lemma_position_from(s, c, i);
    lemma_no_earlier(s, c, i);
    let j = position_from(s, c, i);
    let all = pieces_from(s, c, i);
    if j < s.len() {
        splitting_loses_nothing(s, c, j + 1);
        let rest = pieces_from(s, c, j + 1);
        assert(all =~= seq![s.subrange(i, j)] + rest);
        assert(all.drop_first() =~= rest);
        assert(all[0] == s.subrange(i, j));
        assert(s[j] == c);
        assert(s.subrange(i, j).push(c) + s.skip(j + 1) =~= s.skip(i));
        assert forall|k: int| 0 <= k < all.len() implies !(#[trigger] all[k]).contains(c) by {
            if k > 0 {
                assert(all[k] == rest[k - 1]);
            }
        }
    } else {
        assert(all =~= seq![s.subrange(i, s.len() as int)]);
        assert(s.subrange(i, s.len() as int) =~= s.skip(i));
    }
}

proof fn lemma_no_earlier(s: Seq<char>, c: char, i: int)
    requires
        0 <= i <= s.len(),
    ensures
        position_from(s, c, i) < s.len() ==> s[position_from(s, c, i)] == c,
        i <= position_from(s, c, i) <= s.len(),
        !s.subrange(i, position_from(s, c, i)).contains(c),
    decreases s.len() - i,
{
    if i < s.len() && s[i] != c {
        lemma_no_earlier(s, c, i + 1);
        let j = position_from(s, c, i);
        let t = s.subrange(i, j);
        if t.contains(c) {
            let k = choose|k: int| 0 <= k < t.len() && t[k] == c;
            assert(t[k] == s[i + k]);
            assert(s.subrange(i + 1, j)[k - 1] == c);
        }
    }
}

/// A word in front of white space is the first word, and white space in front does not
/// matter.
pub proof fn words_are_found(word: Seq<char>, space: char, rest: Seq<char>)
    requires
        word.len() > 0,
        forall|i: int| 0 <= i < word.len() ==> !white_space(#[trigger] word[i]),
        white_space(space),
    ensures
        words_of(word + seq![space] + rest) == seq![word] + words_of(rest),
        words_of(word) == seq![word],
        words_of(seq![space] + rest) == words_of(rest),
{
    let tail = seq![space] + rest;
    let s = word + tail;
    assert(word + seq![space] + rest =~= s);
    assert(tail.drop_first() =~= rest);
    assert(trim_start(tail) == trim_start(rest));
    assert(words_of(tail) == words_of(rest));
    assert(s[0] == word[0]);
    lemma_word_runs(word, tail);
    assert(s.take(word.len() as int) =~= word);
    assert(s.skip(word.len() as int) =~= tail);
    let none = Seq::<char>::empty();
    assert(word + none =~= word);
    lemma_word_runs(word, none);
    assert(word.take(word.len() as int) =~= word);
    assert(word.skip(word.len() as int) =~= none);
    assert(trim_start(none) == none);
    assert(words_of(none) =~= Seq::<Seq<char>>::empty());
    assert(words_of(word) =~= seq![word]);
}

proof fn lemma_word_runs(word: Seq<char>, tail: Seq<char>)
    requires
        forall|i: int| 0 <= i < word.len() ==> !white_space(#[trigger] word[i]),
        tail.len() == 0 || white_space(tail[0]),
    ensures
        word_len(word + tail) == word.len(),
    decreases word.len(),
{
    let s = word + tail;
    if word.len() > 0 {
        let fewer = word.drop_first();
        assert forall|i: int| 0 <= i < fewer.len() implies !white_space(#[trigger] fewer[i]) by {
            assert(fewer[i] == word[i + 1]);
        }
        assert(s[0] == word[0]);
        assert(s.drop_first() =~= fewer + tail);
        lemma_word_runs(fewer, tail);
    } else {
        assert(s =~= tail);
    }
}

/// A numeral is read back as the number it was written for.
pub proof fn numerals_are_read_back(n: u64)
    ensures
        number_of(dec(n as nat)) == Some(n),
{
    lemma_dec(n as nat);
    assert('0' <= dec(n as nat)[0]);
}

/// Lines, each with its end.
pub open spec fn unlined(rows: Seq<Seq<char>>) -> Seq<char>
    decreases rows.len(),
{
    if rows.len() == 0 {
        Seq::empty()
    } else {
        rows[0].push('\n') + unlined(rows.drop_first())
    }
}

/// Lines that were written one below the other are read back, where none holds a line
/// end and none ends in a carriage return.
pub proof fn lines_are_read_back(front: Seq<char>, rows: Seq<Seq<char>>)
    requires
        forall|i: int|
            0 <= i < rows.len() ==> !(#[trigger] rows[i]).contains('\n') && (rows[i].len() > 0
                ==> rows[i].last() != '\r'),
    ensures
        lines_from(front + unlined(rows), front.len() as int) == rows,
    decreases rows.len(),
{
    let s = front + unlined(rows);
    let i = front.len() as int;
    if rows.len() == 0 {
        assert(lines_from(s, i) =~= rows);
    } else {
        let row = rows[0];
        let rest = rows.drop_first();
        let longer = front + row.push('\n');
        assert(longer + unlined(rest) =~= s);
        assert forall|k: int| 0 <= k < rest.len() implies !(#[trigger] rest[k]).contains('\n') && (
        rest[k].len() > 0 ==> rest[k].last() != '\r') by {
            assert(rest[k] == rows[k + 1]);
        }
        lines_are_read_back(longer, rest);
        let j = i + row.len();
        assert(s[j] == '\n');
        assert(s.subrange(i, j) =~= row);
        lemma_first_at(s, '\n', i, j, row);
        if i < j {
            assert(s[j - 1] == row.last());
        }
        assert(line_text(s, i, j) == row);
        assert(lines_from(s, i) =~= seq![row] + rest);
        assert(seq![row] + rest =~= rows);
    }
}

proof fn lemma_first_at(s: Seq<char>, c: char, i: int, j: int, row: Seq<char>)
    requires
        0 <= i <= j < s.len(),
        s[j] == c,
        s.subrange(i, j) == row,
        !row.contains(c),
    ensures
        position_from(s, c, i) == j,
    decreases j - i,
{
    if i < j {
        assert(row[0] == s[i]);
        let fewer = s.subrange(i + 1, j);
        if fewer.contains(c) {
            let k = choose|k: int| 0 <= k < fewer.len() && fewer[k] == c;
            assert(row[k + 1] == c);
        }
        lemma_first_at(s, c, i + 1, j, fewer);
    }
}

} // verus!
