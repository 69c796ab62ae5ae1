//! Small pieces of text handling shared by the parsers: walking a string by
//! characters, trimming and splitting, reading decimal numbers the way Rust's
//! `str::parse` reads them, and writing them back out.
use vstd::prelude::*;

verus! {

/// The characters of `s`, in order.
pub fn chars_of(s: &str) -> (out: Vec<char>)
    ensures
        out@ == s@,
{
    let mut out: Vec<char> = Vec::new();
    for c in it: s.chars()
        invariant
            out@ == it.seq().take(it.index() as int),
            it.seq() == s@,
    {
        out.push(c);
    }
    out
}

/// A `String` holding `chars`.
///
/// Calls `Iterator::collect` into a `String`, which the standard library
/// documents as concatenating the characters in order; the contract states
/// exactly that.
#[verifier::external_body]
pub fn string_from_chars(chars: &[char]) -> (s: String)
    ensures
        s@ == chars@,
{
    chars.iter().collect()
}

/// Unicode's `White_Space` property, the set `str::trim` strips.
pub open spec fn is_whitespace(c: char) -> bool {
    let n = c as u32;
    (0x09 <= n && n <= 0x0D) || n == 0x20 || n == 0x85 || n == 0xA0 || n == 0x1680 || (0x2000
        <= n && n <= 0x200A) || n == 0x2028 || n == 0x2029 || n == 0x202F || n == 0x205F || n
        == 0x3000
}

/// Whether `c` is white space.
pub fn char_is_whitespace(c: char) -> (r: bool)
    ensures
        r == is_whitespace(c),
{
    let n = c as u32;
    (0x09 <= n && n <= 0x0D) || n == 0x20 || n == 0x85 || n == 0xA0 || n == 0x1680 || (0x2000
        <= n && n <= 0x200A) || n == 0x2028 || n == 0x2029 || n == 0x202F || n == 0x205F || n
        == 0x3000
}

/// `s` with leading and trailing white space removed.
pub open spec fn trim_spec(s: Seq<char>) -> Seq<char>
    decreases s.len(),
{
    if s.len() == 0 {
        s
    } else if is_whitespace(s[0]) {
        trim_spec(s.drop_first())
    } else if is_whitespace(s.last()) {
        trim_spec(s.drop_last())
    } else {
        s
    }
}

/// Where the trimmed text of `s[lo..hi]` starts and ends.
pub fn trim_range(s: &[char], lo: usize, hi: usize) -> (r: (usize, usize))
    requires
        lo <= hi <= s.len(),
    ensures
        lo <= r.0 <= r.1 <= hi,
        s@.subrange(r.0 as int, r.1 as int) == trim_spec(s@.subrange(lo as int, hi as int)),
{
    let mut a = lo;
    let mut b = hi;
    while a < b && char_is_whitespace(s[a])
        invariant
            lo <= a <= b <= hi <= s.len(),
            trim_spec(s@.subrange(a as int, b as int)) == trim_spec(
                s@.subrange(lo as int, hi as int),
            ),
        decreases b - a,
    {
        assert(s@.subrange(a as int, b as int).drop_first() =~= s@.subrange(a + 1, b as int));
        a = a + 1;
    }
    while a < b && char_is_whitespace(s[b - 1])
        invariant
            lo <= a <= b <= hi <= s.len(),
            a < b ==> !is_whitespace(s@[a as int]),
            trim_spec(s@.subrange(a as int, b as int)) == trim_spec(
                s@.subrange(lo as int, hi as int),
            ),
        decreases b - a,
    {
        assert(s@.subrange(a as int, b as int).drop_last() =~= s@.subrange(a as int, b - 1));
        b = b - 1;
    }
    (a, b)
}

/// Whether `c` is an ASCII decimal digit.
pub open spec fn is_digit(c: char) -> bool {
    '0' <= c && c <= '9'
}

/// The value of the digit `c`.
pub open spec fn digit_value(c: char) -> nat {
    (c as u32 - '0' as u32) as nat
}

/// Whether every character of `s` is a digit.
pub open spec fn all_digits(s: Seq<char>) -> bool {
    forall|i: int| 0 <= i < s.len() ==> is_digit(#[trigger] s[i])
}

/// The value of the decimal digits `s`, most significant first.
pub open spec fn digits_value(s: Seq<char>) -> nat
    decreases s.len(),
{
    if s.len() == 0 {
        0
    } else {
        digits_value(s.drop_last()) * 10 + digit_value(s.last())
    }
}

/// The digits of an unsigned number as `str::parse` reads it: one optional
/// leading `+` is skipped.
pub open spec fn unsigned_digits(s: Seq<char>) -> Seq<char> {
    if s.len() > 0 && s[0] == '+' {
        s.drop_first()
    } else {
        s
    }
}

/// What `str::parse::<u64>` gives for `s`: an optional `+`, then at least one
/// digit and nothing else, with a value that fits.
pub open spec fn parse_u64_spec(s: Seq<char>) -> Option<u64> {
    let d = unsigned_digits(s);
    if d.len() > 0 && all_digits(d) && digits_value(d) <= u64::MAX {
        Some(digits_value(d) as u64)
    } else {
        None
    }
}

/// What `str::parse::<u32>` gives for `s`.
pub open spec fn parse_u32_spec(s: Seq<char>) -> Option<u32> {
    let d = unsigned_digits(s);
    if d.len() > 0 && all_digits(d) && digits_value(d) <= u32::MAX {
        Some(digits_value(d) as u32)
    } else {
        None
    }
}

/// What `str::parse::<i32>` gives for `s`: an optional sign, then at least
/// one digit and nothing else, with a value that fits.
pub open spec fn parse_i32_spec(s: Seq<char>) -> Option<i32> {
    if s.len() > 0 && s[0] == '-' {
        let d = s.drop_first();
        if d.len() > 0 && all_digits(d) && digits_value(d) <= 0x8000_0000 {
            Some((0 - digits_value(d)) as i32)
        } else {
            None
        }
    } else {
        let d = unsigned_digits(s);
        if d.len() > 0 && all_digits(d) && digits_value(d) <= i32::MAX {
            Some(digits_value(d) as i32)
        } else {
            None
        }
    }
}

/// A prefix of a run of digits is worth no more than the whole run.
pub proof fn lemma_digits_prefix_le(s: Seq<char>, i: int)
    requires
        0 <= i <= s.len(),
    ensures
        digits_value(s.take(i)) <= digits_value(s),
    decreases s.len() - i,
{
    if i < s.len() {
        lemma_digits_prefix_le(s, i + 1);
        assert(s.take(i + 1).drop_last() =~= s.take(i));
    } else {
        assert(s.take(i) =~= s);
    }
}

/// The value of the digits `s[lo..hi]`, or `None` if it does not fit a `u64`.
fn digits_u64(s: &[char], lo: usize, hi: usize) -> (r: Option<u64>)
    requires
        lo <= hi <= s.len(),
        all_digits(s@.subrange(lo as int, hi as int)),
    ensures
        match r {
            Some(v) => v == digits_value(s@.subrange(lo as int, hi as int)),
            None => digits_value(s@.subrange(lo as int, hi as int)) > u64::MAX,
        },
{
    let ghost d = s@.subrange(lo as int, hi as int);
    let mut acc: u64 = 0;
    let mut i = lo;
    while i < hi
        invariant
            lo <= i <= hi <= s.len(),
            d == s@.subrange(lo as int, hi as int),
            all_digits(d),
            acc == digits_value(d.take(i - lo)),
        decreases hi - i,
    {
        let c = s[i];
        assert(d[i - lo] == c);
        let digit = (c as u32 - '0' as u32) as u64;
        proof {
            assert(d.take(i - lo + 1).drop_last() =~= d.take(i - lo));
            assert(d.take(i - lo + 1).last() == c);
        }
        if acc > (u64::MAX - digit) / 10 {
            proof {
                lemma_digits_prefix_le(d, i - lo + 1);
            }
            return None;
        }
        acc = acc * 10 + digit;
        i = i + 1;
    }
    assert(d.take(i - lo) =~= d);
    Some(acc)
}

/// Whether `s[lo..hi]` is all digits.
fn all_digits_in(s: &[char], lo: usize, hi: usize) -> (r: bool)
    requires
        lo <= hi <= s.len(),
    ensures
        r == all_digits(s@.subrange(lo as int, hi as int)),
{
    let mut i = lo;
    while i < hi
        invariant
            lo <= i <= hi <= s.len(),
            all_digits(s@.subrange(lo as int, i as int)),
        decreases hi - i,
    {
        if !('0' <= s[i] && s[i] <= '9') {
            assert(s@.subrange(lo as int, hi as int)[i - lo] == s@[i as int]);
            return false;
        }
        assert(forall|j: int| 0 <= j < i + 1 - lo ==> #[trigger] s@.subrange(lo as int, i + 1)[j]
            == s@.subrange(lo as int, i as int + 1)[j]);
        i = i + 1;
    }
    true
}

/// Read `s[lo..hi]` as `str::parse::<u64>` does.
pub fn parse_u64(s: &[char], lo: usize, hi: usize) -> (r: Option<u64>)
    requires
        lo <= hi <= s.len(),
    ensures
        r == parse_u64_spec(s@.subrange(lo as int, hi as int)),
{
    let ghost t = s@.subrange(lo as int, hi as int);
    let mut start = lo;
    if lo < hi && s[lo] == '+' {
        start = lo + 1;
        assert(t.drop_first() =~= s@.subrange(start as int, hi as int));
    } else {
        assert(t =~= s@.subrange(start as int, hi as int));
    }
    if start == hi || !all_digits_in(s, start, hi) {
        return None;
    }
    digits_u64(s, start, hi)
}

/// Read `s[lo..hi]` as `str::parse::<u32>` does.
pub fn parse_u32(s: &[char], lo: usize, hi: usize) -> (r: Option<u32>)
    requires
        lo <= hi <= s.len(),
    ensures
        r == parse_u32_spec(s@.subrange(lo as int, hi as int)),
{
    match parse_u64(s, lo, hi) {
        Some(v) => if v <= u32::MAX as u64 {
            Some(v as u32)
        } else {
            None
        },
        None => {
            proof {
                let d = unsigned_digits(s@.subrange(lo as int, hi as int));
                if d.len() > 0 && all_digits(d) {
                    assert(digits_value(d) > u64::MAX);
                }
            }
            None
        },
    }
}

/// Read `s[lo..hi]` as `str::parse::<i32>` does.
pub fn parse_i32(s: &[char], lo: usize, hi: usize) -> (r: Option<i32>)
    requires
        lo <= hi <= s.len(),
    ensures
        r == parse_i32_spec(s@.subrange(lo as int, hi as int)),
{
    let ghost t = s@.subrange(lo as int, hi as int);
    if lo < hi && s[lo] == '-' {
        assert(t.drop_first() =~= s@.subrange(lo + 1, hi as int));
        if lo + 1 == hi || !all_digits_in(s, lo + 1, hi) {
            return None;
        }
        match digits_u64(s, lo + 1, hi) {
            Some(v) => if v <= 0x8000_0000 {
                if v == 0x8000_0000 {
                    Some(i32::MIN)
                } else {
                    Some(0 - (v as i32))
                }
            } else {
                None
            },
            None => None,
        }
    } else {
        match parse_u64(s, lo, hi) {
            Some(v) => if v <= i32::MAX as u64 {
                Some(v as i32)
            } else {
                None
            },
            None => {
                proof {
                    let d = unsigned_digits(t);
                    if d.len() > 0 && all_digits(d) {
                        assert(digits_value(d) > u64::MAX);
                    }
                }
                None
            },
        }
    }
}

/// The canonical decimal digits of `n`: at least one, and no leading zero
/// unless `n` is zero.
pub open spec fn is_decimal_of(s: Seq<char>, n: nat) -> bool {
    &&& s.len() > 0
    &&& all_digits(s)
    &&& digits_value(s) == n
    &&& (s.len() > 1 ==> s[0] != '0')
}

/// The digit character for `d`, which is below ten.
pub open spec fn digit_char_spec(d: nat) -> char {
    (48 + d) as char
}

/// `n` in decimal, most significant digit first.
pub open spec fn decimal(n: nat) -> Seq<char>
    decreases n,
{
    if n < 10 {
        seq![digit_char_spec(n)]
    } else {
        decimal(n / 10).push(digit_char_spec(n % 10))
    }
}

/// The digit character for `d`.
fn digit_char(d: u64) -> (c: char)
    requires
        d < 10,
    ensures
        is_digit(c),
        digit_value(c) == d,
        c == digit_char_spec(d as nat),
{
    match d {
        0 => '0',
        1 => '1',
        2 => '2',
        3 => '3',
        4 => '4',
        5 => '5',
        6 => '6',
        7 => '7',
        8 => '8',
        _ => '9',
    }
}

/// `n` in decimal.
pub fn decimal_chars(n: u64) -> (s: Vec<char>)
    ensures
        is_decimal_of(s@, n as nat),
        s@ == decimal(n as nat),
    decreases n,
{
    if n < 10 {
        let mut s: Vec<char> = Vec::new();
        let c = digit_char(n);
        s.push(c);
        assert(s@.drop_last() =~= Seq::<char>::empty());
        assert(digits_value(Seq::<char>::empty()) == 0);
        assert(s@.last() == c);
        assert(s@[0] == c);
        s
    } else {
        let mut s = decimal_chars(n / 10);
        let ghost before = s@;
        let c = digit_char(n % 10);
        s.push(c);
        proof {
            assert(s@.drop_last() =~= before);
            assert(s@.last() == c);
            assert(digits_value(s@) == digits_value(before) * 10 + digit_value(c));
            assert(n == (n / 10) * 10 + n % 10);
            if before.len() == 1 {
                let c0 = before[0];
                assert(before.drop_last() =~= Seq::<char>::empty());
                assert(digits_value(Seq::<char>::empty()) == 0);
                assert(before.last() == c0);
                assert(digits_value(before) == digit_value(c0));
            }
            assert(s@[0] == before[0]);
            assert forall|i: int| 0 <= i < s@.len() implies is_digit(#[trigger] s@[i]) by {
                if i < before.len() {
                    assert(s@[i] == before[i]);
                }
            }
        }
        s
    }
}

/// Whether `c` is one of the two separators.
pub open spec fn is_sep(c: char, a: char, b: char) -> bool {
    c == a || c == b
}

/// `s` split at every `a` or `b`, as `str::split` does: always at least one
/// field, and empty fields where separators meet or stand at an end.
pub open spec fn fields(s: Seq<char>, a: char, b: char) -> Seq<Seq<char>>
    decreases s.len(),
{
    if s.len() == 0 {
        seq![Seq::empty()]
    } else {
        let f = fields(s.drop_last(), a, b);
        if is_sep(s.last(), a, b) {
            f.push(Seq::empty())
        } else {
            f.update(f.len() - 1, f.last().push(s.last()))
        }
    }
}

/// `fields` always has at least one field.
pub proof fn lemma_fields_nonempty(s: Seq<char>, a: char, b: char)
    ensures
        fields(s, a, b).len() >= 1,
    decreases s.len(),
{
    if s.len() > 0 {
        lemma_fields_nonempty(s.drop_last(), a, b);
    }
}

/// Whether the ranges `r` pick out exactly `f` from `s`, each within `lo..hi`.
pub open spec fn ranges_of(s: Seq<char>, r: Seq<(usize, usize)>, f: Seq<Seq<char>>, lo: int, hi: int) -> bool {
    &&& r.len() == f.len()
    &&& forall|k: int|
        0 <= k < r.len() ==> lo <= (#[trigger] r[k]).0 <= r[k].1 <= hi && s.subrange(
            r[k].0 as int,
            r[k].1 as int,
        ) == f[k]
}

/// The ranges of the fields of `s[lo..hi]`, split at every `a` or `b`.
pub fn split_any(s: &[char], lo: usize, hi: usize, a: char, b: char) -> (r: Vec<(usize, usize)>)
    requires
        lo <= hi <= s.len(),
    ensures
        ranges_of(s@, r@, fields(s@.subrange(lo as int, hi as int), a, b), lo as int, hi as int),
{
    let mut r: Vec<(usize, usize)> = Vec::new();
    let mut start = lo;
    let mut i = lo;
    while i < hi
        invariant
            lo <= start <= i <= hi <= s.len(),
            fields(s@.subrange(lo as int, i as int), a, b).len() == r.len() + 1,
            ranges_of(
                s@,
                r@,
                fields(s@.subrange(lo as int, i as int), a, b).drop_last(),
                lo as int,
                hi as int,
            ),
            fields(s@.subrange(lo as int, i as int), a, b).last() == s@.subrange(
                start as int,
                i as int,
            ),
        decreases hi - i,
    {
        let c = s[i];
        let ghost prev = s@.subrange(lo as int, i as int);
        let ghost next = s@.subrange(lo as int, i + 1);
        let ghost f = fields(prev, a, b);
        proof {
            assert(next.drop_last() =~= prev);
            assert(next.last() == c);
            lemma_fields_nonempty(prev, a, b);
        }
        if c == a || c == b {
            r.push((start, i));
            proof {
                let g = fields(next, a, b);
                assert(g == f.push(Seq::<char>::empty()));
                assert(g.drop_last() =~= f);
                assert forall|k: int| 0 <= k < r@.len() implies lo <= (#[trigger] r@[k]).0
                    <= r@[k].1 <= hi && s@.subrange(r@[k].0 as int, r@[k].1 as int)
                    == g.drop_last()[k] by {
                    if k < r@.len() - 1 {
                        assert(f.drop_last()[k] == f[k]);
                    }
                }
                assert(s@.subrange(i + 1, i + 1) =~= Seq::<char>::empty());
            }
            start = i + 1;
        } else {
            proof {
                let g = fields(next, a, b);
                assert(g == f.update(f.len() - 1, f.last().push(c)));
                assert(g.drop_last() =~= f.drop_last());
                assert(s@.subrange(start as int, i + 1) =~= s@.subrange(start as int, i as int).push(
                    c,
                ));
            }
        }
        i = i + 1;
    }
    r.push((start, hi));
    proof {
        let f = fields(s@.subrange(lo as int, hi as int), a, b);
        assert forall|k: int| 0 <= k < r@.len() implies lo <= (#[trigger] r@[k]).0 <= r@[k].1
            <= hi && s@.subrange(r@[k].0 as int, r@[k].1 as int) == f[k] by {
            if k < r@.len() - 1 {
                assert(f.drop_last()[k] == f[k]);
            }
        }
    }
    r
}

/// Whether `s[lo..hi]` spells `lit`.
pub fn range_is(s: &[char], lo: usize, hi: usize, lit: &str) -> (r: bool)
    requires
        lo <= hi <= s.len(),
    ensures
        r == (s@.subrange(lo as int, hi as int) == lit@),
{
    let l = chars_of(lit);
    if hi - lo != l.len() {
        return false;
    }
    let mut i: usize = 0;
    while i < l.len()
        invariant
            i <= l.len(),
            hi - lo == l.len(),
            lo <= hi <= s.len(),
            l@ == lit@,
            forall|j: int| 0 <= j < i ==> s@[lo + j] == l@[j],
        decreases l.len() - i,
    {
        if s[lo + i] != l[i] {
            assert(s@.subrange(lo as int, hi as int)[i as int] != lit@[i as int]);
            return false;
        }
        i = i + 1;
    }
    assert(s@.subrange(lo as int, hi as int) =~= lit@);
    true
}

/// The position of the first `c` in `s[lo..hi]`, or `hi` if there is none.
pub fn find_char(s: &[char], lo: usize, hi: usize, c: char) -> (r: usize)
    requires
        lo <= hi <= s.len(),
    ensures
        lo <= r <= hi,
        forall|j: int| lo <= j < r ==> s@[j] != c,
        r < hi ==> s@[r as int] == c,
{
    let mut i = lo;
    while i < hi && s[i] != c
        invariant
            lo <= i <= hi <= s.len(),
            forall|j: int| lo <= j < i ==> s@[j] != c,
        decreases hi - i,
    {
        i = i + 1;
    }
    i
}

/// The position just after the last `c` in `s[lo..hi]`, or `lo` if there is
/// none.
pub fn after_last_char(s: &[char], lo: usize, hi: usize, c: char) -> (r: usize)
    requires
        lo <= hi <= s.len(),
    ensures
        lo <= r <= hi,
        forall|j: int| r <= j < hi ==> s@[j] != c,
        r > lo ==> s@[r - 1] == c,
{
    let mut i = hi;
    while i > lo && s[i - 1] != c
        invariant
            lo <= i <= hi <= s.len(),
            forall|j: int| i <= j < hi ==> s@[j] != c,
        decreases i - lo,
    {
        i = i - 1;
    }
    i
}

/// A `String` holding `s[lo..hi]`.
pub fn string_of_range(s: &[char], lo: usize, hi: usize) -> (r: String)
    requires
        lo <= hi <= s.len(),
    ensures
        r@ == s@.subrange(lo as int, hi as int),
{
    let mut v: Vec<char> = Vec::new();
    let mut i = lo;
    while i < hi
        invariant
            lo <= i <= hi <= s.len(),
            v@ == s@.subrange(lo as int, i as int),
        decreases hi - i,
    {
        v.push(s[i]);
        assert(s@.subrange(lo as int, i + 1) =~= s@.subrange(lo as int, i as int).push(s@[i as int]));
        i = i + 1;
    }
    string_from_chars(v.as_slice())
}

/// The last field of `s` is what follows its last separator.
pub proof fn lemma_fields_last(s: Seq<char>, a: char, b: char, k: int)
    requires
        0 <= k <= s.len(),
        k == 0 || is_sep(s[k - 1], a, b),
        forall|j: int| k <= j < s.len() ==> !is_sep(#[trigger] s[j], a, b),
    ensures
        fields(s, a, b).last() == s.subrange(k, s.len() as int),
    decreases s.len(),
{
    if s.len() == k {
        if s.len() > 0 {
            let f = fields(s.drop_last(), a, b);
            assert(fields(s, a, b) == f.push(Seq::empty()));
        }
        assert(s.subrange(k, s.len() as int) =~= Seq::<char>::empty());
    } else {
        let rest = s.drop_last();
        lemma_fields_last(rest, a, b, k);
        lemma_fields_nonempty(rest, a, b);
        assert(s.subrange(k, s.len() as int) =~= rest.subrange(k, rest.len() as int).push(
            s.last(),
        ));
    }
}

/// The first field of `s` is what precedes its first separator.
pub proof fn lemma_fields_first(s: Seq<char>, a: char, b: char, k: int)
    requires
        0 <= k <= s.len(),
        k == s.len() || is_sep(s[k], a, b),
        forall|j: int| 0 <= j < k ==> !is_sep(#[trigger] s[j], a, b),
    ensures
        fields(s, a, b)[0] == s.subrange(0, k),
    decreases s.len(),
{
    if s.len() == 0 {
    } else if s.len() == k {
        let rest = s.drop_last();
        lemma_fields_first(rest, a, b, k - 1);
        lemma_fields_nonempty(rest, a, b);
        let f = fields(rest, a, b);
        if f.len() == 1 {
            assert(s.subrange(0, k) =~= rest.subrange(0, k - 1).push(s.last()));
        } else {
            lemma_fields_count_one(rest, a, b, k - 1);
        }
    } else {
        let rest = s.drop_last();
        lemma_fields_first(rest, a, b, k);
        lemma_fields_nonempty(rest, a, b);
        assert(s.subrange(0, k) =~= rest.subrange(0, k));
        if k < rest.len() {
            lemma_fields_two(rest, a, b, k);
        }
    }
}

/// With no separator in `s`, there is exactly one field.
proof fn lemma_fields_count_one(s: Seq<char>, a: char, b: char, k: int)
    requires
        k == s.len(),
        forall|j: int| 0 <= j < k ==> !is_sep(#[trigger] s[j], a, b),
    ensures
        fields(s, a, b).len() == 1,
    decreases s.len(),
{
    if s.len() > 0 {
        lemma_fields_count_one(s.drop_last(), a, b, k - 1);
    }
}

/// A separator at `k` makes at least two fields, and appending to `s` never
/// changes the first field once the separator is there.
proof fn lemma_fields_two(s: Seq<char>, a: char, b: char, k: int)
    requires
        0 <= k < s.len(),
        is_sep(s[k], a, b),
    ensures
        fields(s, a, b).len() >= 2,
    decreases s.len(),
{
    lemma_fields_nonempty(s.drop_last(), a, b);
    if k < s.len() - 1 {
        lemma_fields_two(s.drop_last(), a, b, k);
    }
}

/// The words of `s`, as `str::split_whitespace` yields them: the maximal runs
/// of characters that are not white space.
pub open spec fn words(s: Seq<char>) -> Seq<Seq<char>>
    decreases s.len(),
{
    if s.len() == 0 {
        Seq::empty()
    } else {
        let w = words(s.drop_last());
        if is_whitespace(s.last()) {
            w
        } else if s.len() >= 2 && !is_whitespace(s[s.len() - 2]) && w.len() > 0 {
            w.update(w.len() - 1, w.last().push(s.last()))
        } else {
            w.push(seq![s.last()])
        }
    }
}

/// The ranges of the words of `s[lo..hi]`.
pub fn split_words(s: &[char], lo: usize, hi: usize) -> (r: Vec<(usize, usize)>)
    requires
        lo <= hi <= s.len(),
    ensures
        ranges_of(s@, r@, words(s@.subrange(lo as int, hi as int)), lo as int, hi as int),
{
    let mut r: Vec<(usize, usize)> = Vec::new();
    let mut start = lo;
    let mut inside = false;
    let mut i = lo;
    while i < hi
        invariant
            lo <= start <= i <= hi <= s.len(),
            inside ==> start < i && !is_whitespace(s@[i - 1]),
            !inside ==> (i == lo || is_whitespace(s@[i - 1])),
            !inside ==> ranges_of(s@, r@, words(s@.subrange(lo as int, i as int)), lo as int, hi as int),
            inside ==> words(s@.subrange(lo as int, i as int)).len() == r.len() + 1,
            inside ==> ranges_of(
                s@,
                r@,
                words(s@.subrange(lo as int, i as int)).drop_last(),
                lo as int,
                hi as int,
            ),
            inside ==> words(s@.subrange(lo as int, i as int)).last() == s@.subrange(
                start as int,
                i as int,
            ),
        decreases hi - i,
    {
        let c = s[i];
        let ghost prev = s@.subrange(lo as int, i as int);
        let ghost next = s@.subrange(lo as int, i + 1);
        let ghost w = words(prev);
        proof {
            assert(next.drop_last() =~= prev);
            assert(next.last() == c);
            if i > lo {
                assert(next[next.len() - 2] == s@[i - 1]);
            }
        }
        if char_is_whitespace(c) {
            if inside {
                r.push((start, i));
                proof {
                    assert(words(next) == w);
                    assert forall|k: int| 0 <= k < r@.len() implies lo <= (#[trigger] r@[k]).0
                        <= r@[k].1 <= hi && s@.subrange(r@[k].0 as int, r@[k].1 as int)
                        == w[k] by {
                        if k < r@.len() - 1 {
                            assert(w.drop_last()[k] == w[k]);
                        }
                    }
                }
            }
            inside = false;
        } else {
            if inside {
                proof {
                    assert(words(next) == w.update(w.len() - 1, w.last().push(c)));
                    assert(words(next).drop_last() =~= w.drop_last());
                    assert(s@.subrange(start as int, i + 1) =~= s@.subrange(
                        start as int,
                        i as int,
                    ).push(c));
                }
            } else {
                proof {
                    assert(words(next) == w.push(seq![c]));
                    assert(words(next).drop_last() =~= w);
                    assert(s@.subrange(i as int, i + 1) =~= seq![c]);
                }
                start = i;
                inside = true;
            }
        }
        i = i + 1;
    }
    if inside {
        r.push((start, hi));
        proof {
            let w = words(s@.subrange(lo as int, hi as int));
            assert forall|k: int| 0 <= k < r@.len() implies lo <= (#[trigger] r@[k]).0 <= r@[k].1
                <= hi && s@.subrange(r@[k].0 as int, r@[k].1 as int) == w[k] by {
                if k < r@.len() - 1 {
                    assert(w.drop_last()[k] == w[k]);
                }
            }
        }
    }
    r
}

} // verus!
