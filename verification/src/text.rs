//! Text as sequences of characters: search, splitting at white space, and
//! numbers in decimal and hexadecimal notation.

use vstd::prelude::*;
use vstd::string::StringExecFns;

verus! {

/// `needle` occurs in `hay` at index `i`.
pub open spec fn occurs_at(hay: Seq<char>, needle: Seq<char>, i: int) -> bool {
    0 <= i && i + needle.len() <= hay.len() && hay.subrange(i, i + needle.len()) == needle
}

/// `needle` occurs somewhere in `hay`.
pub open spec fn contains_seq(hay: Seq<char>, needle: Seq<char>) -> bool {
    exists|i: int| occurs_at(hay, needle, i)
}

/// White space as Unicode defines it.
pub open spec fn is_space(c: char) -> bool {
    let u = c as u32;
    (0x9 <= u <= 0xd) || u == 0x20 || u == 0x85 || u == 0xa0 || u == 0x1680 || (0x2000 <= u
        <= 0x200a) || u == 0x2028 || u == 0x2029 || u == 0x202f || u == 0x205f || u == 0x3000
}

/// The maximal runs of characters that are not white space, in order.
pub open spec fn tokens(s: Seq<char>) -> Seq<Seq<char>>
    decreases s.len(),
{
    if s.len() == 0 {
        Seq::empty()
    } else {
        let t = tokens(s.drop_last());
        if is_space(s.last()) {
            t
        } else if s.len() >= 2 && !is_space(s[s.len() - 2]) && t.len() > 0 {
            t.drop_last().push(t.last().push(s.last()))
        } else {
            t.push(seq![s.last()])
        }
    }
}

/// The parts joined by single spaces.
pub open spec fn join_spaced(parts: Seq<Seq<char>>) -> Seq<char>
    decreases parts.len(),
{
    if parts.len() == 0 {
        Seq::empty()
    } else if parts.len() == 1 {
        parts[0]
    } else {
        join_spaced(parts.drop_last()) + seq![' '] + parts.last()
    }
}

/// Value of a digit in the given radix (10 or 16): `0` to `9`, and in radix
/// 16 also `a` to `f` in either case.
pub open spec fn digit_value(c: char, radix: int) -> Option<int> {
    let u = c as u32;
    if 0x30 <= u <= 0x39 {
        Some(u - 0x30)
    } else if radix == 16 && 0x61 <= u <= 0x66 {
        Some(u - 0x61 + 10)
    } else if radix == 16 && 0x41 <= u <= 0x46 {
        Some(u - 0x41 + 10)
    } else {
        None
    }
}

/// Every character is a digit of the radix.
pub open spec fn all_digits(s: Seq<char>, radix: int) -> bool {
    forall|i: int| 0 <= i < s.len() ==> digit_value(#[trigger] s[i], radix) is Some
}

/// The number that a sequence of digits spells.
pub open spec fn digits_value(s: Seq<char>, radix: int) -> int
    decreases s.len(),
{
    if s.len() == 0 {
        0
    } else {
        digits_value(s.drop_last(), radix) * radix + digit_value(s.last(), radix).unwrap()
    }
}

/// The digits of a number text: the text without a leading plus sign.
pub open spec fn unsigned_part(s: Seq<char>) -> Seq<char> {
    if s.len() > 0 && s[0] == '+' {
        s.subrange(1, s.len() as int)
    } else {
        s
    }
}

/// The 64-bit number that a text spells in the given radix: an optional plus
/// sign and at least one digit, nothing else, and a value that fits.
pub open spec fn parse_u64(s: Seq<char>, radix: int) -> Option<u64> {
    let d = unsigned_part(s);
    if d.len() > 0 && all_digits(d, radix) && digits_value(d, radix) <= u64::MAX {
        Some(digits_value(d, radix) as u64)
    } else {
        None
    }
}

/// The digit that stands for `d`.
pub open spec fn digit_char(d: int) -> char {
    (0x30 + d) as char
}

/// A number in decimal notation.
pub open spec fn decimal(n: nat) -> Seq<char>
    decreases n,
{
    if n < 10 {
        seq![digit_char(n as int)]
    } else {
        decimal(n / 10).push(digit_char((n % 10) as int))
    }
}

/// The characters of a string.
pub fn chars_of(s: &str) -> (v: Vec<char>)
    ensures
        v@ == s@,
{
    let mut v: Vec<char> = Vec::new();
    for c in it: s.chars()
        invariant
            it.seq() == s@,
            v@ == it.seq().take(it.index()),
    {
        proof {
            assert(it.seq().take(it.index() + 1) =~= it.seq().take(it.index()).push(c));
        }
        v.push(c);
    }
    proof {
        assert(v@ =~= s@);
    }
    v
}

/// Whether two sequences of characters are equal.
pub fn same_chars(a: &Vec<char>, b: &Vec<char>) -> (r: bool)
    ensures
        r == (a@ == b@),
{
    if a.len() != b.len() {
        return false;
    }
    let mut i: usize = 0;
    while i < a.len()
        invariant
            i <= a@.len(),
            a@.len() == b@.len(),
            forall|j: int| 0 <= j < i ==> a@[j] == b@[j],
        decreases a@.len() - i,
    {
        if a[i] != b[i] {
            return false;
        }
        i = i + 1;
    }
    proof {
        assert(a@ =~= b@);
    }
    true
}

/// Whether `needle` occurs in `hay`.
pub fn contains_chars(hay: &Vec<char>, needle: &Vec<char>) -> (r: bool)
    ensures
        r == contains_seq(hay@, needle@),
{
    let n: usize = needle.len();
    if n > hay.len() {
        return false;
    }
    if n == 0 {
        proof {
            assert(hay@.subrange(0, 0) =~= needle@);
            assert(occurs_at(hay@, needle@, 0));
        }
        return true;
    }
    let total: usize = hay.len();
    let last: usize = total - n;
    let mut i: usize = 0;
    while i <= last
        invariant
            i <= last + 1,
            n == needle@.len(),
            n > 0,
            total == hay@.len(),
            last == total - n,
            forall|k: int| 0 <= k < i ==> !occurs_at(hay@, needle@, k),
        decreases last + 1 - i,
    {
        let mut j: usize = 0;
        while j < n && hay[i + j] == needle[j]
            invariant
                j <= n,
                i <= last,
                n == needle@.len(),
                total == hay@.len(),
                last == total - n,
                forall|k: int| 0 <= k < j ==> hay@[i + k] == needle@[k],
            decreases n - j,
        {
            j = j + 1;
        }
        if j == n {
            proof {
                assert(hay@.subrange(i as int, i + n) =~= needle@);
                assert(occurs_at(hay@, needle@, i as int));
            }
            return true;
        }
        proof {
            assert(hay@.subrange(i as int, i + n)[j as int] == hay@[i + j]);
        }
        i = i + 1;
    }
    false
}

/// Whether two strings hold the same text.
pub fn str_equal(a: &str, b: &str) -> (r: bool)
    ensures
        r == (a@ == b@),
{
    let x = chars_of(a);
    let y = chars_of(b);
    same_chars(&x, &y)
}

/// Whether the text `needle` occurs in the text `hay`.
pub fn str_contains(hay: &str, needle: &str) -> (r: bool)
    ensures
        r == contains_seq(hay@, needle@),
{
    let x = chars_of(hay);
    let y = chars_of(needle);
    contains_chars(&x, &y)
}

/// Whether the character is white space.
pub fn is_whitespace(c: char) -> (r: bool)
    ensures
        r == is_space(c),
{
    let u: u32 = c as u32;
    (0x9 <= u && u <= 0xd) || u == 0x20 || u == 0x85 || u == 0xa0 || u == 0x1680 || (0x2000 <= u
        && u <= 0x200a) || u == 0x2028 || u == 0x2029 || u == 0x202f || u == 0x205f || u
        == 0x3000
}

/// Where the tokens of a text lie: for each, the index of its first
/// character and the index after its last.
pub fn token_spans(s: &Vec<char>) -> (spans: Vec<(usize, usize)>)
    ensures
        spans@.len() == tokens(s@).len(),
        forall|k: int|
            0 <= k < spans@.len() ==> (#[trigger] spans@[k]).0 < spans@[k].1 <= s@.len()
                && tokens(s@)[k] == s@.subrange(spans@[k].0 as int, spans@[k].1 as int),
{
    let mut spans: Vec<(usize, usize)> = Vec::new();
    let mut i: usize = 0;
    while i < s.len()
        invariant
            i <= s@.len(),
            spans@.len() == tokens(s@.take(i as int)).len(),
            forall|k: int|
                0 <= k < spans@.len() ==> (#[trigger] spans@[k]).0 < spans@[k].1 <= i && tokens(
                    s@.take(i as int),
                )[k] == s@.subrange(spans@[k].0 as int, spans@[k].1 as int),
            i > 0 && !is_space(s@[i - 1]) ==> spans@.len() > 0 && spans@[spans@.len() - 1].1 == i,
        decreases s@.len() - i,
    {
        let ghost before = s@.take(i as int);
        let ghost now = s@.take(i + 1);
        proof {
            assert(now.drop_last() =~= before);
            assert(now.last() == s@[i as int]);
            if i > 0 {
                assert(now[now.len() - 2] == s@[i - 1]);
            }
        }
        let c: char = s[i];
        if !is_whitespace(c) {
            if i > 0 && !is_whitespace(s[i - 1]) {
                let n: usize = spans.len();
                let old_span = spans[n - 1];
                let ghost old_spans = spans@;
                spans.set(n - 1, (old_span.0, i + 1));
                proof {
                    let t = tokens(before);
                    assert(tokens(now) == t.drop_last().push(t.last().push(c)));
                    assert(s@.subrange(old_span.0 as int, i + 1) =~= s@.subrange(
                        old_span.0 as int,
                        i as int,
                    ).push(c));
                    assert forall|k: int| 0 <= k < spans@.len() implies (#[trigger] spans@[k]).0
                        < spans@[k].1 <= i + 1 && tokens(now)[k] == s@.subrange(
                        spans@[k].0 as int,
                        spans@[k].1 as int,
                    ) by {
                        if k < n - 1 {
                            assert(spans@[k] == old_spans[k]);
                            assert(tokens(now)[k] == t[k]);
                        }
                    }
                }
            } else {
                let ghost old_spans = spans@;
                spans.push((i, i + 1));
                proof {
                    let t = tokens(before);
                    assert(tokens(now) == t.push(seq![c]));
                    assert(s@.subrange(i as int, i + 1) =~= seq![c]);
                    assert forall|k: int| 0 <= k < spans@.len() implies (#[trigger] spans@[k]).0
                        < spans@[k].1 <= i + 1 && tokens(now)[k] == s@.subrange(
                        spans@[k].0 as int,
                        spans@[k].1 as int,
                    ) by {
                        if k < old_spans.len() {
                            assert(spans@[k] == old_spans[k]);
                            assert(tokens(now)[k] == t[k]);
                        }
                    }
                }
            }
        } else {
            proof {
                assert(tokens(now) == tokens(before));
            }
        }
        i = i + 1;
    }
    proof {
        assert(s@.take(s@.len() as int) =~= s@);
    }
    spans
}

proof fn lemma_digits_grow(s: Seq<char>, radix: int)
    requires
        radix == 10 || radix == 16,
        all_digits(s, radix),
        s.len() > 0,
    ensures
        digits_value(s, radix) >= digits_value(s.drop_last(), radix) >= 0,
    decreases s.len(),
{
    let rest = s.drop_last();
    assert(digit_value(s[s.len() - 1], radix) is Some);
    if rest.len() > 0 {
        assert forall|i: int| 0 <= i < rest.len() implies digit_value(
            #[trigger] rest[i],
            radix,
        ) is Some by {
            assert(rest[i] == s[i]);
        }
        lemma_digits_grow(rest, radix);
    }
    let v = digits_value(rest, radix);
    assert(v * radix >= v) by (nonlinear_arith)
        requires
            v >= 0,
            radix >= 1,
    ;
}

fn digit_of(c: char, radix: u32) -> (d: Option<u64>)
    requires
        radix == 10 || radix == 16,
    ensures
        match d {
            Some(v) => digit_value(c, radix as int) == Some(v as int) && v < radix,
            None => digit_value(c, radix as int) is None,
        },
{
    let u: u32 = c as u32;
    if 0x30 <= u && u <= 0x39 {
        Some((u - 0x30) as u64)
    } else if radix == 16 && 0x61 <= u && u <= 0x66 {
        Some((u - 0x61 + 10) as u64)
    } else if radix == 16 && 0x41 <= u && u <= 0x46 {
        Some((u - 0x41 + 10) as u64)
    } else {
        None
    }
}

/// Reads the characters of `s` from `from` up to `to` as a 64-bit number in
/// radix 10 or 16.
pub fn parse_number(s: &Vec<char>, from: usize, to: usize, radix: u32) -> (r: Option<u64>)
    requires
        from <= to <= s@.len(),
        radix == 10 || radix == 16,
    ensures
        r == parse_u64(s@.subrange(from as int, to as int), radix as int),
{
    let ghost text = s@.subrange(from as int, to as int);
    let start: usize = if from < to && s[from] == '+' {
        from + 1
    } else {
        from
    };
    let ghost d = unsigned_part(text);
    proof {
        if from < to {
            assert(text[0] == s@[from as int]);
        }
        assert(d =~= s@.subrange(start as int, to as int));
    }
    if start == to {
        return None;
    }
    let mut acc: u128 = 0;
    let mut i: usize = start;
    while i < to
        invariant
            start <= i <= to <= s@.len(),
            from <= to,
            radix == 10 || radix == 16,
            text == s@.subrange(from as int, to as int),
            d == unsigned_part(text),
            d.len() > 0,
            d == s@.subrange(start as int, to as int),
            all_digits(d.take(i - start), radix as int),
            acc == digits_value(d.take(i - start), radix as int),
            acc <= u64::MAX,
        decreases to - i,
    {
        let ghost before = d.take(i - start);
        let ghost now = d.take(i - start + 1);
        proof {
            assert(now.drop_last() =~= before);
            assert(now.last() == s@[i as int]);
            assert(d[i - start] == s@[i as int]);
        }
        match digit_of(s[i], radix) {
            None => {
                proof {
                    assert(digit_value(d[i - start], radix as int) is None);
                }
                return None;
            },
            Some(v) => {
                proof {
                    assert forall|k: int| 0 <= k < now.len() implies digit_value(
                        #[trigger] now[k],
                        radix as int,
                    ) is Some by {
                        if k < before.len() {
                            assert(now[k] == before[k]);
                        }
                    }
                    assert(acc * radix <= 0xffff_ffff_ffff_ffff * 16) by (nonlinear_arith)
                        requires
                            0 <= acc <= 0xffff_ffff_ffff_ffff,
                            0 <= radix <= 16,
                    ;
                }
                let next: u128 = acc * (radix as u128) + (v as u128);
                proof {
                    assert(next == digits_value(now, radix as int));
                }
                if next > 0xffff_ffff_ffff_ffff {
                    proof {
                        lemma_prefix_value(d, i - start + 1, radix as int);
                    }
                    return None;
                }
                acc = next;
            },
        }
        i = i + 1;
    }
    proof {
        assert(d.take(to - start) =~= d);
    }
    Some(acc as u64)
}

/// The value of a run of digits is at least the value of any of its
/// prefixes.
proof fn lemma_prefix_value(d: Seq<char>, n: int, radix: int)
    requires
        radix == 10 || radix == 16,
        0 <= n <= d.len(),
        all_digits(d.take(n), radix),
    ensures
        !all_digits(d, radix) || digits_value(d, radix) >= digits_value(d.take(n), radix),
    decreases d.len() - n,
{
    if n == d.len() {
        assert(d.take(n) =~= d);
    } else if all_digits(d, radix) {
        assert forall|k: int| 0 <= k < n + 1 implies digit_value(
            #[trigger] d.take(n + 1)[k],
            radix,
        ) is Some by {
            assert(d.take(n + 1)[k] == d[k]);
        }
        lemma_prefix_value(d, n + 1, radix);
        lemma_digits_grow(d.take(n + 1), radix);
        assert(d.take(n + 1).drop_last() =~= d.take(n));
    }
}

fn digit_text(d: usize) -> (s: &'static str)
    requires
        d < 10,
    ensures
        s@ == seq![digit_char(d as int)],
{
    proof {
        reveal_strlit("0");
        reveal_strlit("1");
        reveal_strlit("2");
        reveal_strlit("3");
        reveal_strlit("4");
        reveal_strlit("5");
        reveal_strlit("6");
        reveal_strlit("7");
        reveal_strlit("8");
        reveal_strlit("9");
    }
    let s = if d == 0 {
        "0"
    } else if d == 1 {
        "1"
    } else if d == 2 {
        "2"
    } else if d == 3 {
        "3"
    } else if d == 4 {
        "4"
    } else if d == 5 {
        "5"
    } else if d == 6 {
        "6"
    } else if d == 7 {
        "7"
    } else if d == 8 {
        "8"
    } else {
        "9"
    };
    proof {
        assert(s@ =~= seq![digit_char(d as int)]);
    }
    s
}

/// A number in decimal notation.
pub fn to_decimal(n: usize) -> (s: String)
    ensures
        s@ == decimal(n as nat),
    decreases n,
{
    if n < 10 {
        String::from_str(digit_text(n))
    } else {
        let mut s = to_decimal(n / 10);
        s.append(digit_text(n % 10));
        proof {
            assert(s@ =~= decimal((n / 10) as nat).push(digit_char((n % 10) as int)));
        }
        s
    }
}

} // verus!
