use vstd::prelude::*;

verus! {

/// Whether `c` is one of the ASCII digits `0` to `9`.
pub open spec fn is_digit(c: char) -> bool {
    '0' <= c && c <= '9'
}

/// Numeric value of a decimal digit.
pub open spec fn digit_value(c: char) -> nat {
    (c as int - '0' as int) as nat
}

/// Every character of `s` is a decimal digit.
pub open spec fn all_digits(s: Seq<char>) -> bool {
    forall|i: int| 0 <= i < s.len() ==> is_digit(#[trigger] s[i])
}

/// The number that the digit string `s` denotes (most significant digit first).
pub open spec fn digits_value(s: Seq<char>) -> nat
    decreases s.len(),
{
    if s.len() == 0 {
        0
    } else {
        10 * digits_value(s.drop_last()) + digit_value(s.last())
    }
}

/// The digits of an unsigned literal: the text without one optional leading `+`.
pub open spec fn unsigned_digits(s: Seq<char>) -> Seq<char> {
    if s.len() > 0 && s[0] == '+' {
        s.drop_first()
    } else {
        s
    }
}

/// What `usize::from_str` gives for the text `s`: the value of a non-empty run
/// of decimal digits, optionally preceded by `+`, when it fits in a `usize`.
pub open spec fn parsed_usize(s: Seq<char>) -> Option<usize> {
    let d = unsigned_digits(s);
    if d.len() > 0 && all_digits(d) && digits_value(d) <= usize::MAX {
        Some(digits_value(d) as usize)
    } else {
        None
    }
}

/// A digit string denotes at least as much as any of its prefixes.
pub proof fn lemma_digits_value_prefix(s: Seq<char>, j: int)
    requires
        0 <= j <= s.len(),
    ensures
        digits_value(s.take(j)) <= digits_value(s),
    decreases s.len(),
{
    if j < s.len() {
        assert(s.drop_last().take(j) =~= s.take(j));
        lemma_digits_value_prefix(s.drop_last(), j);
    } else {
        assert(s.take(j) =~= s);
    }
}

/// The digit character for `d < 10`.
pub open spec fn digit_char(d: nat) -> char {
    if d == 0 {
        '0'
    } else if d == 1 {
        '1'
    } else if d == 2 {
        '2'
    } else if d == 3 {
        '3'
    } else if d == 4 {
        '4'
    } else if d == 5 {
        '5'
    } else if d == 6 {
        '6'
    } else if d == 7 {
        '7'
    } else if d == 8 {
        '8'
    } else {
        '9'
    }
}

/// The decimal text of `n`, as `n.to_string()` writes it: its digits, most
/// significant first, with no sign and no leading zero.
pub open spec fn decimal_text(n: nat) -> Seq<char>
    decreases n,
{
    if n < 10 {
        seq![digit_char(n)]
    } else {
        decimal_text(n / 10).push(digit_char(n % 10))
    }
}

/// `n` zero characters.
pub open spec fn zeros(n: nat) -> Seq<char> {
    Seq::new(n, |i: int| '0')
}

proof fn lemma_digit_char(d: nat)
    requires
        d < 10,
    ensures
        is_digit(digit_char(d)),
        digit_value(digit_char(d)) == d,
{
}

proof fn lemma_digit_char_of_digit(c: char)
    requires
        is_digit(c),
    ensures
        digit_value(c) < 10,
        digit_char(digit_value(c)) == c,
{
    assert(c == '0' || c == '1' || c == '2' || c == '3' || c == '4' || c == '5' || c == '6' || c == '7'
        || c == '8' || c == '9') by {
        assert('0' as int == 48 && '9' as int == 57);
        assert('1' as int == 49 && '2' as int == 50 && '3' as int == 51 && '4' as int == 52);
        assert('5' as int == 53 && '6' as int == 54 && '7' as int == 55 && '8' as int == 56);
    }
}

proof fn lemma_decimal_text_digits(n: nat)
    ensures
        decimal_text(n).len() > 0,
        all_digits(decimal_text(n)),
        digits_value(decimal_text(n)) == n,
    decreases n,
{
    let t = decimal_text(n);
    if n < 10 {
        lemma_digit_char(n);
        assert(t.drop_last() =~= Seq::<char>::empty());
        assert(digits_value(Seq::<char>::empty()) == 0);
    } else {
        lemma_decimal_text_digits(n / 10);
        lemma_digit_char(n % 10);
        assert(t.drop_last() =~= decimal_text(n / 10));
        assert(t.last() == digit_char(n % 10));
        assert(n == 10 * (n / 10) + n % 10);
        assert forall|i: int| 0 <= i < t.len() implies is_digit(#[trigger] t[i]) by {
            if i < t.len() - 1 {
                assert(t[i] == decimal_text(n / 10)[i]);
            }
        }
    }
}

proof fn lemma_digits_value_leading_zero(s: Seq<char>)
    ensures
        digits_value(seq!['0'] + s) == digits_value(s),
    decreases s.len(),
{
    let t = seq!['0'] + s;
    if s.len() == 0 {
        assert(t.drop_last() =~= Seq::<char>::empty());
        assert(t.last() == '0');
        assert(digit_value('0') == 0);
        assert(digits_value(Seq::<char>::empty()) == 0);
    } else {
        assert(t.drop_last() =~= seq!['0'] + s.drop_last());
        assert(t.last() == s.last());
        lemma_digits_value_leading_zero(s.drop_last());
    }
}

/// Reading the decimal text of any `n` gives back `n`, also with a leading
/// `+` or a leading zero.
pub proof fn lemma_parse_round_trip(n: usize)
    ensures
        parsed_usize(decimal_text(n as nat)) == Some(n),
        parsed_usize(seq!['+'] + decimal_text(n as nat)) == Some(n),
        parsed_usize(seq!['0'] + decimal_text(n as nat)) == Some(n),
{
    let t = decimal_text(n as nat);
    lemma_decimal_text_digits(n as nat);
    assert(t[0] != '+') by {
        assert(is_digit(t[0]));
    }
    assert(unsigned_digits(t) == t);
    assert((seq!['+'] + t).drop_first() =~= t);
    let z = seq!['0'] + t;
    lemma_digits_value_leading_zero(t);
    assert(z[0] == '0');
    assert(all_digits(z)) by {
        assert forall|i: int| 0 <= i < z.len() implies is_digit(#[trigger] z[i]) by {
            if i > 0 {
                assert(z[i] == t[i - 1]);
            }
        }
    }
}

proof fn lemma_digits_canonical(d: Seq<char>) -> (z: nat)
    requires
        d.len() > 0,
        all_digits(d),
    ensures
        d == zeros(z) + decimal_text(digits_value(d)),
    decreases d.len(),
{
    let c = d.last();
    assert(is_digit(c));
    lemma_digit_char_of_digit(c);
    let cv = digit_value(c);
    if d.len() == 1 {
        assert(d.drop_last() =~= Seq::<char>::empty());
        assert(digits_value(Seq::<char>::empty()) == 0);
        assert(digits_value(d) == cv);
        assert(decimal_text(cv) =~= seq![c]);
        assert(d =~= zeros(0) + decimal_text(digits_value(d)));
        0
    } else {
        let e = d.drop_last();
        assert(all_digits(e)) by {
            assert forall|i: int| 0 <= i < e.len() implies is_digit(#[trigger] e[i]) by {
                assert(e[i] == d[i]);
            }
        }
        let z1 = lemma_digits_canonical(e);
        let v1 = digits_value(e);
        let v = digits_value(d);
        assert(v == 10 * v1 + cv);
        if v1 == 0 {
            assert(decimal_text(0) =~= seq!['0']);
            assert(e =~= zeros(z1 + 1));
            assert(decimal_text(v) =~= seq![c]);
            assert(d =~= zeros(z1 + 1) + decimal_text(v));
            z1 + 1
        } else {
            assert(v / 10 == v1 && v % 10 == cv);
            assert(decimal_text(v) =~= decimal_text(v1).push(c));
            assert(d =~= e.push(c));
            assert(d =~= zeros(z1) + decimal_text(v));
            z1
        }
    }
}

/// Whatever text reads as `v` is the decimal text of `v`, possibly after
/// leading zeros, possibly after one `+`: nothing else is accepted.
pub proof fn lemma_parse_canonical(s: Seq<char>, v: usize)
    requires
        parsed_usize(s) == Some(v),
    ensures
        exists|z: nat|
            s == zeros(z) + decimal_text(v as nat) || s == seq!['+'] + (zeros(z) + decimal_text(v as nat)),
{
    let d = unsigned_digits(s);
    let z = lemma_digits_canonical(d);
    if s.len() > 0 && s[0] == '+' {
        assert(s =~= seq!['+'] + d);
    }
    assert(s == zeros(z) + decimal_text(v as nat) || s == seq!['+'] + (zeros(z) + decimal_text(v as nat)));
}

/// Collects the characters of `s` in order.
pub fn chars_of(s: &str) -> (v: Vec<char>)
    ensures
        v@ == s@,
{
    let mut v: Vec<char> = Vec::new();
    for c in it: s.chars()
        invariant
            v@ == it.seq().take(it.index() as int),
            it.seq() == s@,
    {
        v.push(c);
    }
    v
}

/// Parses an unsigned decimal number as `str::parse::<usize>` does:
/// an optional `+`, then one or more digits, with no other character and
/// no overflow.
pub fn parse_usize(s: &str) -> (r: Option<usize>)
    ensures
        r == parsed_usize(s@),
{
    let chars = chars_of(s);
    parse_usize_chars(chars.as_slice())
}

/// [`parse_usize`] on a text given as its characters.
pub fn parse_usize_chars(chars: &[char]) -> (r: Option<usize>)
    ensures
        r == parsed_usize(chars@),
{
    let ghost s = chars@;
    let len: usize = chars.len();
    let start: usize = if len > 0 && chars[0] == '+' { 1 } else { 0 };
    let ghost d = unsigned_digits(s);
    assert(d =~= s.subrange(start as int, len as int));
    if start == len {
        return None;
    }
    let mut acc: usize = 0;
    let mut i: usize = start;
    while i < len
        invariant
            start <= i <= len,
            len == chars@.len(),
            chars@ == s,
            d =~= s.subrange(start as int, len as int),
            d == unsigned_digits(s),
            all_digits(d.take(i - start)),
            acc as nat == digits_value(d.take(i - start)),
        decreases len - i,
    {
        let c = chars[i];
        assert(d[i - start] == c);
        if !('0' <= c && c <= '9') {
            assert(!all_digits(d));
            return None;
        }
        let digit: usize = (c as u32 - '0' as u32) as usize;
        assert(d.take(i - start + 1).drop_last() =~= d.take(i - start));
        assert(d.take(i - start + 1).last() == c);
        let next = match acc.checked_mul(10) {
            Some(t) => t.checked_add(digit),
            None => None,
        };
        match next {
            Some(v) => {
                acc = v;
            },
            None => {
                proof {
                    if all_digits(d) {
                        lemma_digits_value_prefix(d, i - start + 1);
                    }
                }
                return None;
            },
        }
        i = i + 1;
    }
    assert(d.take(len - start) =~= d);
    Some(acc)
}

} // verus!
