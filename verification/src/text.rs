//! Character-level views of text.
use vstd::prelude::*;
use vstd::string::StringExecFns;

verus! {

/// The characters of `s`, in order.
pub fn chars_of(s: &str) -> (v: Vec<char>)
    ensures
        v@ == s@,
{
    let mut v: Vec<char> = Vec::new();
    for c in it: s.chars()
        invariant
            v@ == it.seq().take(it.index() as int),
    {
        v.push(c);
    }
    v
}

} // verus!

verus! {

/// Bytes in the UTF-8 encoding of one character.
pub open spec fn char_width(c: char) -> int {
    let v = c as u32;
    if v <= 0x7F {
        1
    } else if v <= 0x7FF {
        2
    } else if v <= 0xFFFF {
        3
    } else {
        4
    }
}

/// Bytes in the UTF-8 encoding of a character sequence.
pub open spec fn utf8_len(c: Seq<char>) -> int
    decreases c.len(),
{
    if c.len() == 0 {
        0
    } else {
        utf8_len(c.drop_last()) + char_width(c.last())
    }
}

proof fn lemma_encode_concat(a: Seq<char>, b: Seq<char>)
    ensures
        vstd::utf8::encode_utf8(a + b) == vstd::utf8::encode_utf8(a) + vstd::utf8::encode_utf8(b),
    decreases a.len(),
{
    if a.len() == 0 {
        assert(a + b =~= b);
        assert(vstd::utf8::encode_utf8(a) =~= Seq::<u8>::empty());
        assert(Seq::<u8>::empty() + vstd::utf8::encode_utf8(b) =~= vstd::utf8::encode_utf8(b));
    } else {
        lemma_encode_concat(a.drop_first(), b);
        assert((a + b).drop_first() =~= a.drop_first() + b);
        assert((a + b)[0] == a[0]);
        assert(vstd::utf8::encode_utf8(a + b) =~= vstd::utf8::encode_scalar(a[0] as u32)
            + vstd::utf8::encode_utf8(a.drop_first() + b));
    }
}

proof fn lemma_char_width(c: char)
    ensures
        vstd::utf8::encode_scalar(c as u32).len() == char_width(c),
{
    broadcast use vstd::utf8::char_is_scalar;

    assert(vstd::utf8::is_scalar(c as u32));
}

/// The encoded length is the sum of the character widths.
pub proof fn lemma_utf8_len(c: Seq<char>)
    ensures
        vstd::utf8::encode_utf8(c).len() == utf8_len(c),
    decreases c.len(),
{
    if c.len() > 0 {
        lemma_utf8_len(c.drop_last());
        lemma_encode_concat(c.drop_last(), seq![c.last()]);
        assert(c.drop_last() + seq![c.last()] =~= c);
        lemma_char_width(c.last());
        assert(seq![c.last()].drop_first() =~= Seq::<char>::empty());
        assert(vstd::utf8::encode_utf8(seq![c.last()]) =~= vstd::utf8::encode_scalar(c.last() as u32)
            + vstd::utf8::encode_utf8(Seq::<char>::empty()));
    }
}

fn char_width_exec(c: char) -> (w: usize)
    ensures
        w == char_width(c),
{
    let v = c as u32;
    if v <= 0x7F {
        1
    } else if v <= 0x7FF {
        2
    } else if v <= 0xFFFF {
        3
    } else {
        4
    }
}

/// Whether the UTF-8 encoding of `cs` takes more than `limit` bytes.
pub fn encoded_longer_than(cs: &Vec<char>, limit: usize) -> (r: bool)
    requires
        limit <= usize::MAX - 4,
    ensures
        r == (vstd::utf8::encode_utf8(cs@).len() > limit),
{
    proof {
        lemma_utf8_len(cs@);
    }
    let mut total: usize = 0;
    let mut i: usize = 0;
    while i < cs.len()
        invariant
            i <= cs@.len(),
            total == utf8_len(cs@.subrange(0, i as int)),
            total <= limit,
            limit <= usize::MAX - 4,
        decreases cs@.len() - i,
    {
        proof {
            assert(cs@.subrange(0, i + 1).drop_last() =~= cs@.subrange(0, i as int));
        }
        total = total + char_width_exec(cs[i]);
        if total > limit {
            proof {
                lemma_utf8_len_prefix(cs@, i + 1);
                lemma_utf8_len(cs@);
            }
            return true;
        }
        i += 1;
    }
    assert(cs@.subrange(0, cs@.len() as int) =~= cs@);
    false
}

/// A prefix never encodes to more bytes than the whole.
proof fn lemma_utf8_len_prefix(c: Seq<char>, k: int)
    requires
        0 <= k <= c.len(),
    ensures
        utf8_len(c.subrange(0, k)) <= utf8_len(c),
    decreases c.len() - k,
{
    if k < c.len() {
        lemma_utf8_len_prefix(c, k + 1);
        assert(c.subrange(0, k + 1).drop_last() =~= c.subrange(0, k));
    } else {
        assert(c.subrange(0, k) =~= c);
    }
}

} // verus!

verus! {

/// The decimal digit character for `d < 10`.
pub open spec fn digit(d: nat) -> char {
    (d + 48) as char
}

/// The decimal rendering of `n`, without sign or leading zeros.
pub open spec fn decimal(n: nat) -> Seq<char>
    decreases n,
{
    if n < 10 {
        seq![digit(n)]
    } else {
        decimal(n / 10).push(digit(n % 10))
    }
}

fn digit_text(d: u128) -> (s: &'static str)
    requires
        d < 10,
    ensures
        s@ == seq![digit(d as nat)],
{
    if d == 0 {
        proof {
            reveal_strlit("0");
        }
        "0"
    } else if d == 1 {
        proof {
            reveal_strlit("1");
        }
        "1"
    } else if d == 2 {
        proof {
            reveal_strlit("2");
        }
        "2"
    } else if d == 3 {
        proof {
            reveal_strlit("3");
        }
        "3"
    } else if d == 4 {
        proof {
            reveal_strlit("4");
        }
        "4"
    } else if d == 5 {
        proof {
            reveal_strlit("5");
        }
        "5"
    } else if d == 6 {
        proof {
            reveal_strlit("6");
        }
        "6"
    } else if d == 7 {
        proof {
            reveal_strlit("7");
        }
        "7"
    } else if d == 8 {
        proof {
            reveal_strlit("8");
        }
        "8"
    } else {
        proof {
            reveal_strlit("9");
        }
        "9"
    }
}

/// `n` in decimal.
pub fn decimal_text(n: u128) -> (s: String)
    ensures
        s@ == decimal(n as nat),
    decreases n,
{
    if n < 10 {
        digit_text(n).to_owned()
    } else {
        let mut s = decimal_text(n / 10);
        s.append(digit_text(n % 10));
        s
    }
}

/// An ASCII decimal digit.
pub open spec fn is_digit(c: char) -> bool {
    '0' <= c <= '9'
}

/// The value of a string of decimal digits.
pub open spec fn digits_value(d: Seq<char>) -> int
    decreases d.len(),
{
    if d.len() == 0 {
        0
    } else {
        digits_value(d.drop_last()) * 10 + (d.last() as int - 48)
    }
}

/// Every character is a decimal digit.
pub open spec fn all_digits(d: Seq<char>) -> bool {
    forall|i: int| 0 <= i < d.len() ==> is_digit(#[trigger] d[i])
}

/// `s` without one leading `+`.
pub open spec fn unsigned_body(s: Seq<char>) -> Seq<char> {
    if s.len() > 0 && s[0] == '+' {
        s.drop_first()
    } else {
        s
    }
}

/// What an unsigned integer parse accepts: an optional `+`, then one or
/// more decimal digits, and nothing else.
pub open spec fn unsigned_digits(s: Seq<char>) -> Option<Seq<char>> {
    if unsigned_body(s).len() > 0 && all_digits(unsigned_body(s)) {
        Some(unsigned_body(s))
    } else {
        None
    }
}

/// `s` read as a `u64` in decimal, or `None` when it is not one or does
/// not fit.
pub open spec fn parse_u64_spec(s: Seq<char>) -> Option<u64> {
    match unsigned_digits(s) {
        None => None,
        Some(d) => if digits_value(d) <= u64::MAX {
            Some(digits_value(d) as u64)
        } else {
            None
        },
    }
}

proof fn lemma_digits_value_nonneg(d: Seq<char>)
    requires
        forall|i: int| 0 <= i < d.len() ==> is_digit(#[trigger] d[i]),
    ensures
        digits_value(d) >= 0,
    decreases d.len(),
{
    if d.len() > 0 {
        let init = d.drop_last();
        assert forall|i: int| 0 <= i < init.len() implies is_digit(#[trigger] init[i]) by {
            assert(init[i] == d[i]);
        }
        lemma_digits_value_nonneg(init);
    }
}

/// Reads `s` as a `u64` in decimal.
pub fn parse_u64(s: &str) -> (r: Option<u64>)
    ensures
        r == parse_u64_spec(s@),
{
    let cs = chars_of(s);
    let n = cs.len();
    let mut k: usize = 0;
    if n > 0 && cs[0] == '+' {
        k = 1;
    }
    let ghost d = unsigned_body(s@);
    assert(d =~= cs@.subrange(k as int, n as int));
    if k == n {
        return None;
    }
    let start = k;
    let mut value: u64 = 0;
    let mut overflowed = false;
    while k < n
        invariant
            start <= k <= n,
            start < n,
            n == cs@.len(),
            d == cs@.subrange(start as int, n as int),
            d == unsigned_body(s@),
            forall|i: int| start <= i < k ==> is_digit(#[trigger] cs@[i]),
            !overflowed ==> value == digits_value(cs@.subrange(start as int, k as int)),
            overflowed ==> digits_value(cs@.subrange(start as int, k as int)) > u64::MAX,
        decreases n - k,
    {
        let c = cs[k];
        if !('0' <= c && c <= '9') {
            assert(!is_digit(d[k - start]));
            return None;
        }
        let ghost prefix = cs@.subrange(start as int, k as int);
        let ghost next = cs@.subrange(start as int, k + 1);
        assert(next.drop_last() =~= prefix);
        assert forall|i: int| 0 <= i < prefix.len() implies is_digit(#[trigger] prefix[i]) by {
            assert(prefix[i] == cs@[start + i]);
        }
        proof {
            lemma_digits_value_nonneg(prefix);
        }
        let digit = (c as u32 - 48) as u64;
        if !overflowed {
            match value.checked_mul(10) {
                Some(t) => match t.checked_add(digit) {
                    Some(v) => {
                        value = v;
                    },
                    None => {
                        overflowed = true;
                    },
                },
                None => {
                    overflowed = true;
                },
            }
        }
        k += 1;
    }
    assert forall|i: int| 0 <= i < d.len() implies is_digit(#[trigger] d[i]) by {
        assert(d[i] == cs@[start + i]);
    }
    if overflowed {
        None
    } else {
        Some(value)
    }
}

} // verus!
