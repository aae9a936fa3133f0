//! Character-level string helpers: views of strings as character sequences,
//! whitespace trimming, prefixes, lexicographic order and decimal numbers.

use vstd::prelude::*;

verus! {

/// Returns the characters of `s`, in order.
pub fn chars_of(s: &str) -> (out: Vec<char>)
    ensures
        out@ == s@,
{
    let mut out: Vec<char> = Vec::new();
    for c in it: s.chars()
        invariant
            out@ == it.seq().take(it.index() as int),
            it.seq() == s@,
    {
        out.push(c);
    }
    out
}

/// The characters with the Unicode `White_Space` property, the ones that
/// `char::is_whitespace` recognises and `str::trim` removes.
pub open spec fn is_white_space(c: char) -> bool {
    let v = c as u32;
    ||| 0x9 <= v <= 0xd
    ||| v == 0x20
    ||| v == 0x85
    ||| v == 0xa0
    ||| v == 0x1680
    ||| 0x2000 <= v <= 0x200a
    ||| v == 0x2028
    ||| v == 0x2029
    ||| v == 0x202f
    ||| v == 0x205f
    ||| v == 0x3000
}

/// Whether `c` is a Unicode whitespace character.
pub fn is_white_space_char(c: char) -> (r: bool)
    ensures
        r == is_white_space(c),
{
    let v = c as u32;
    (0x9 <= v && v <= 0xd) || v == 0x20 || v == 0x85 || v == 0xa0 || v == 0x1680 || (0x2000 <= v
        && v <= 0x200a) || v == 0x2028 || v == 0x2029 || v == 0x202f || v == 0x205f || v == 0x3000
}

/// `s` without its leading whitespace.
pub open spec fn trim_start(s: Seq<char>) -> Seq<char>
    decreases s.len(),
{
    if s.len() > 0 && is_white_space(s[0]) {
        trim_start(s.drop_first())
    } else {
        s
    }
}

/// `s` without its trailing whitespace.
pub open spec fn trim_end(s: Seq<char>) -> Seq<char>
    decreases s.len(),
{
    if s.len() > 0 && is_white_space(s.last()) {
        trim_end(s.drop_last())
    } else {
        s
    }
}

/// `s` without leading and trailing whitespace, as `str::trim` gives it.
pub open spec fn trim(s: Seq<char>) -> Seq<char> {
    trim_end(trim_start(s))
}

proof fn lemma_trim_start_skip(s: Seq<char>, i: int)
    requires
        0 <= i <= s.len(),
        forall|k: int| 0 <= k < i ==> is_white_space(#[trigger] s[k]),
    ensures
        trim_start(s) == trim_start(s.skip(i)),
    decreases i,
{
    if i > 0 {
        assert(s.drop_first().skip(i - 1) =~= s.skip(i));
        lemma_trim_start_skip(s.drop_first(), i - 1);
    } else {
        assert(s.skip(0) =~= s);
    }
}

proof fn lemma_trim_end_take(s: Seq<char>, j: int)
    requires
        0 <= j <= s.len(),
        forall|k: int| j <= k < s.len() ==> is_white_space(#[trigger] s[k]),
    ensures
        trim_end(s) == trim_end(s.take(j)),
    decreases s.len() - j,
{
    if j < s.len() {
        assert(s.drop_last().take(j) =~= s.take(j));
        lemma_trim_end_take(s.drop_last(), j);
    } else {
        assert(s.take(j) =~= s);
    }
}

/// The characters of `s` without leading and trailing whitespace.
pub fn trimmed_chars(s: &str) -> (out: Vec<char>)
    ensures
        out@ == trim(s@),
{
    let cs = chars_of(s);
    let n = cs.len();
    let mut i: usize = 0;
    while i < n && is_white_space_char(cs[i])
        invariant
            cs@ == s@,
            n == cs.len(),
            i <= n,
            forall|k: int| 0 <= k < i ==> is_white_space(#[trigger] cs@[k]),
        decreases n - i,
    {
        i = i + 1;
    }
    proof {
        lemma_trim_start_skip(cs@, i as int);
    }
    let ghost rest = cs@.skip(i as int);
    assert(trim_start(rest) == rest);
    let mut j: usize = n;
    while j > i && is_white_space_char(cs[j - 1])
        invariant
            cs@ == s@,
            n == cs.len(),
            i <= j <= n,
            rest == cs@.skip(i as int),
            forall|k: int| j <= k < n ==> is_white_space(#[trigger] cs@[k]),
        decreases j,
    {
        j = j - 1;
    }
    proof {
        lemma_trim_end_take(rest, j - i);
        assert(rest.take(j - i) =~= cs@.subrange(i as int, j as int));
    }
    let mut out: Vec<char> = Vec::new();
    let mut k: usize = i;
    while k < j
        invariant
            cs@ == s@,
            n == cs.len(),
            i <= k <= j <= n,
            out@ == cs@.subrange(i as int, k as int),
        decreases j - k,
    {
        out.push(cs[k]);
        k = k + 1;
    }
    out
}

/// Whether `p` is a prefix of `s`.
pub open spec fn has_prefix(s: Seq<char>, p: Seq<char>) -> bool {
    p.len() <= s.len() && s.take(p.len() as int) == p
}

/// Whether `p` occurs in `s` at position `at`.
pub fn chars_match_at(s: &Vec<char>, at: usize, p: &Vec<char>) -> (r: bool)
    requires
        at <= s.len(),
    ensures
        r == has_prefix(s@.skip(at as int), p@),
{
    if p.len() > s.len() - at {
        return false;
    }
    let mut k: usize = 0;
    while k < p.len()
        invariant
            at + p.len() <= s.len(),
            k <= p.len(),
            forall|m: int| 0 <= m < k ==> s@[at + m] == p@[m],
        decreases p.len() - k,
    {
        if s[at + k] != p[k] {
            assert(s@.skip(at as int).take(p.len() as int)[k as int] != p@[k as int]);
            return false;
        }
        k = k + 1;
    }
    assert(s@.skip(at as int).take(p.len() as int) =~= p@);
    true
}

/// Whether two character vectors hold the same characters.
pub fn chars_equal(a: &Vec<char>, b: &Vec<char>) -> (r: bool)
    ensures
        r == (a@ == b@),
{
    if a.len() != b.len() {
        return false;
    }
    let r = chars_match_at(a, 0, b);
    assert(a@.skip(0) =~= a@);
    assert(a@.take(b.len() as int) =~= a@);
    r
}

/// The character of decimal digit `d`.
pub open spec fn digit_char_of(d: nat) -> char {
    if d == 0 {
        '0'
    } else if d == 1 {
        '1'
    } else if d == 2 {
        '2'
    } else if d == 3 {
        '3'
    } else if d == 4 {
        '4'
    } else if d == 5 {
        '5'
    } else if d == 6 {
        '6'
    } else if d == 7 {
        '7'
    } else if d == 8 {
        '8'
    } else {
        '9'
    }
}

/// The value of decimal digit character `c`, if it is one.
pub open spec fn digit_value_of(c: char) -> Option<nat> {
    if c == '0' {
        Some(0)
    } else if c == '1' {
        Some(1)
    } else if c == '2' {
        Some(2)
    } else if c == '3' {
        Some(3)
    } else if c == '4' {
        Some(4)
    } else if c == '5' {
        Some(5)
    } else if c == '6' {
        Some(6)
    } else if c == '7' {
        Some(7)
    } else if c == '8' {
        Some(8)
    } else if c == '9' {
        Some(9)
    } else {
        None
    }
}

/// The decimal text of `n`, without sign or leading zeros.
pub open spec fn decimal(n: nat) -> Seq<char>
    decreases n,
{
    if n < 10 {
        seq![digit_char_of(n)]
    } else {
        decimal(n / 10).push(digit_char_of(n % 10))
    }
}

fn digit_char(d: u64) -> (c: char)
    requires
        d < 10,
    ensures
        c == digit_char_of(d as nat),
{
    if d == 0 {
        '0'
    } else if d == 1 {
        '1'
    } else if d == 2 {
        '2'
    } else if d == 3 {
        '3'
    } else if d == 4 {
        '4'
    } else if d == 5 {
        '5'
    } else if d == 6 {
        '6'
    } else if d == 7 {
        '7'
    } else if d == 8 {
        '8'
    } else {
        '9'
    }
}

fn digit_value(c: char) -> (r: Option<u64>)
    ensures
        match digit_value_of(c) {
            Some(d) => r == Some(d as u64),
            None => r is None,
        },
{
    if c == '0' {
        Some(0)
    } else if c == '1' {
        Some(1)
    } else if c == '2' {
        Some(2)
    } else if c == '3' {
        Some(3)
    } else if c == '4' {
        Some(4)
    } else if c == '5' {
        Some(5)
    } else if c == '6' {
        Some(6)
    } else if c == '7' {
        Some(7)
    } else if c == '8' {
        Some(8)
    } else if c == '9' {
        Some(9)
    } else {
        None
    }
}

/// `String::push` of std: appends the character `c` to `s`.
#[verifier::external_body]
fn push_char(s: &mut String, c: char)
    ensures
        final(s)@ == old(s)@.push(c),
{
    s.push(c);
}

/// Appends the decimal text of `n` to `s`.
pub fn push_decimal(s: &mut String, n: u64)
    ensures
        final(s)@ == old(s)@ + decimal(n as nat),
    decreases n,
{
    if n >= 10 {
        push_decimal(s, n / 10);
    }
    push_char(s, digit_char(n % 10));
    assert(old(s)@ + decimal(n as nat) =~= if n >= 10 {
        (old(s)@ + decimal((n / 10) as nat)).push(digit_char_of((n % 10) as nat))
    } else {
        old(s)@.push(digit_char_of((n % 10) as nat))
    });
}

/// All characters of `s` are decimal digits.
pub open spec fn all_digits(s: Seq<char>) -> bool {
    forall|i: int| 0 <= i < s.len() ==> (#[trigger] digit_value_of(s[i])) is Some
}

/// The value of the decimal digits `s`, most significant first.
pub open spec fn digits_value(s: Seq<char>) -> nat
    decreases s.len(),
{
    if s.len() == 0 {
        0
    } else {
        digits_value(s.drop_last()) * 10 + digit_value_of(s.last())->0
    }
}

/// What `u64::from_str` gives for `s`: an optional `+`, then at least one
/// decimal digit and nothing else, of a value that fits in 64 bits.
pub open spec fn parsed_u64(s: Seq<char>) -> Option<u64> {
    let ds = if s.len() > 0 && s[0] == '+' {
        s.drop_first()
    } else {
        s
    };
    if ds.len() > 0 && all_digits(ds) && digits_value(ds) <= u64::MAX {
        Some(digits_value(ds) as u64)
    } else {
        None
    }
}

proof fn lemma_digits_value_prefix(s: Seq<char>, i: int)
    requires
        0 <= i <= s.len(),
    ensures
        digits_value(s.take(i)) <= digits_value(s),
    decreases s.len() - i,
{
    if i < s.len() {
        lemma_digits_value_prefix(s, i + 1);
        assert(s.take(i + 1).drop_last() =~= s.take(i));
        assert(digits_value(s.take(i + 1)) >= digits_value(s.take(i)) * 10);
    } else {
        assert(s.take(i) =~= s);
    }
}

/// Parses `s` as `u64::from_str` does: `None` where it returns an error.
pub fn parse_u64(s: &str) -> (r: Option<u64>)
    ensures
        r == parsed_u64(s@),
{
    let cs = chars_of(s);
    let start: usize = if cs.len() > 0 && cs[0] == '+' {
        1
    } else {
        0
    };
    let ghost ds = cs@.skip(start as int);
    assert(ds =~= if s@.len() > 0 && s@[0] == '+' {
        s@.drop_first()
    } else {
        s@
    });
    if start == cs.len() {
        return None;
    }
    let mut acc: u64 = 0;
    let mut i: usize = start;
    assert(ds.take(0) =~= Seq::<char>::empty());
    while i < cs.len()
        invariant
            start <= i <= cs@.len(),
            cs@ == s@,
            ds == cs@.skip(start as int),
            ds == (if s@.len() > 0 && s@[0] == '+' {
                s@.drop_first()
            } else {
                s@
            }),
            ds.len() > 0,
            all_digits(ds.take(i - start)),
            acc as nat == digits_value(ds.take(i - start)),
        decreases cs@.len() - i,
    {
        let ghost k = i - start;
        assert(ds.take(k + 1).drop_last() =~= ds.take(k));
        assert(ds[k] == cs@[i as int]);
        match digit_value(cs[i]) {
            None => {
                assert(!all_digits(ds)) by {
                    assert(digit_value_of(ds[k]) is None);
                }
                return None;
            },
            Some(d) => {
                if acc > (u64::MAX - d) / 10 {
                    proof {
                        assert(acc * 10 + d > u64::MAX) by (nonlinear_arith)
                            requires
                                acc > (u64::MAX - d) / 10,
                                d < 10,
                        ;
                        lemma_digits_value_prefix(ds, k + 1);
                        assert(ds.take(k + 1).last() == ds[k]);
                        assert(digits_value(ds.take(k + 1)) == acc * 10 + d);
                    }
                    return None;
                }
                assert(acc * 10 + d <= u64::MAX) by (nonlinear_arith)
                    requires
                        acc <= (u64::MAX - d) / 10,
                        d < 10,
                ;
                acc = acc * 10 + d;
                assert forall|m: int| 0 <= m < k + 1 implies (#[trigger] digit_value_of(
                    ds.take(k + 1)[m],
                )) is Some by {
                    if m < k {
                        assert(ds.take(k + 1)[m] == ds.take(k)[m]);
                    }
                }
            },
        }
        i = i + 1;
    }
    assert(ds.take(i - start) =~= ds);
    Some(acc)
}

/// Each decimal digit is written as its own ASCII character: `'0'` for 0
/// up to `'9'` for 9, and that character reads back as the digit.
pub proof fn law_digit_chars(d: nat)
    requires
        d < 10,
    ensures
        digit_char_of(d) as u32 == 48 + d,
        digit_value_of(digit_char_of(d)) == Some(d),
{
}

/// The decimal text of a number reads back as that number, so a number
/// written into a file name can be recovered from it.
pub proof fn law_decimal_reads_back(n: nat)
    requires
        n <= u64::MAX,
    ensures
        parsed_u64(decimal(n)) == Some(n as u64),
        decimal(n).len() > 0,
        all_digits(decimal(n)),
        digits_value(decimal(n)) == n,
    decreases n,
{
    law_digit_chars(n % 10);
    if n < 10 {
        assert(decimal(n) == seq![digit_char_of(n)]);
        assert(decimal(n).drop_last() =~= Seq::<char>::empty());
        assert(decimal(n).last() == digit_char_of(n));
        assert(digits_value(Seq::<char>::empty()) == 0);
        assert(digits_value(decimal(n)) == n);
    } else {
        law_decimal_reads_back(n / 10);
        let t = decimal(n / 10);
        let d = decimal(n);
        assert(d == t.push(digit_char_of(n % 10)));
        assert(d.drop_last() =~= t);
        assert(d.last() == digit_char_of(n % 10));
        assert(n == (n / 10) * 10 + n % 10) by (nonlinear_arith);
        assert(digits_value(d) == digits_value(t) * 10 + digit_value_of(d.last())->0);
        assert forall|i: int| 0 <= i < d.len() implies (#[trigger] digit_value_of(d[i])) is Some by {
            if i < t.len() {
                assert(d[i] == t[i]);
                assert(digit_value_of(t[i]) is Some);
            }
        }
    }
    let d = decimal(n);
    assert(digit_value_of(d[0]) is Some);
    assert(d[0] != '+');
    assert(digits_value(d) <= u64::MAX);
}

} // verus!
