//! Text helpers: moving between `str`, `String`, and character sequences.

use vstd::prelude::*;
use vstd::string::*;

verus! {

/// The characters of `s`, in order.
pub fn chars_of(s: &str) -> (v: Vec<char>)
    ensures
        v@ == s@,
{
    broadcast use vstd::string::group_string_axioms;
    let mut v: Vec<char> = Vec::new();
    for c in it: s.chars()
        invariant
            it.seq() == s@,
            v@ == it.seq().take(it.index() as int),
    {
        v.push(c);
    }
    v
}

/// Appends one character, as `String::push` does.
#[verifier::external_body]
pub fn push_char(s: &mut String, c: char)
    ensures
        final(s)@ == old(s)@.push(c),
{
    s.push(c);
}

/// A `String` holding exactly the characters `cs`.
pub fn string_of(cs: &[char]) -> (s: String)
    ensures
        s@ == cs@,
{
    let mut s = String::new();
    let mut i: usize = 0;
    while i < cs.len()
        invariant
            i <= cs@.len(),
            s@ == cs@.take(i as int),
        decreases cs@.len() - i,
    {
        push_char(&mut s, cs[i]);
        i = i + 1;
        assert(s@ =~= cs@.take(i as int));
    }
    assert(cs@.take(cs@.len() as int) =~= cs@);
    s
}

/// Appends `t` to `s`.
pub fn push_str(s: &mut String, t: &str)
    ensures
        final(s)@ == old(s)@ + t@,
{
    s.append(t);
}

} // verus!

verus! {

/// `s` split at every occurrence of `sep`, like `str::split`.
///
/// Defined from the end so that it follows a left-to-right scan.
pub open spec fn split_on(s: Seq<char>, sep: char) -> Seq<Seq<char>>
    decreases s.len(),
{
    if s.len() == 0 {
        seq![Seq::<char>::empty()]
    } else {
        let before = split_on(s.drop_last(), sep);
        if s.last() == sep {
            before.push(Seq::<char>::empty())
        } else {
            before.update(before.len() - 1, before.last().push(s.last()))
        }
    }
}

/// `split_on` always yields at least one piece.
pub proof fn lemma_split_on_nonempty(s: Seq<char>, sep: char)
    ensures
        split_on(s, sep).len() >= 1,
    decreases s.len(),
{
    if s.len() > 0 {
        lemma_split_on_nonempty(s.drop_last(), sep);
    }
}

/// `parts` joined with `sep` between consecutive parts, like `[_]::join`.
pub open spec fn join_with(parts: Seq<Seq<char>>, sep: char) -> Seq<char>
    decreases parts.len(),
{
    if parts.len() == 0 {
        Seq::<char>::empty()
    } else if parts.len() == 1 {
        parts[0]
    } else {
        join_with(parts.drop_last(), sep).push(sep) + parts.last()
    }
}

/// Whether `s` ends with `suffix`.
pub open spec fn ends_with(s: Seq<char>, suffix: Seq<char>) -> bool {
    suffix.len() <= s.len() && s.subrange(s.len() - suffix.len(), s.len() as int) == suffix
}

/// Whether `s` starts with `prefix`.
pub open spec fn starts_with(s: Seq<char>, prefix: Seq<char>) -> bool {
    prefix.len() <= s.len() && s.subrange(0, prefix.len() as int) == prefix
}

/// The index of the last `c` in `s`, if any.
pub open spec fn last_index_of(s: Seq<char>, c: char) -> Option<int>
    decreases s.len(),
{
    if s.len() == 0 {
        None
    } else if s.last() == c {
        Some(s.len() - 1)
    } else {
        last_index_of(s.drop_last(), c)
    }
}

pub proof fn lemma_last_index_of(s: Seq<char>, c: char)
    ensures
        last_index_of(s, c) matches Some(i) ==> 0 <= i < s.len() && s[i] == c && (forall|j: int|
            i < j < s.len() ==> s[j] != c),
        last_index_of(s, c) is None ==> forall|j: int| 0 <= j < s.len() ==> s[j] != c,
    decreases s.len(),
{
    if s.len() > 0 {
        lemma_last_index_of(s.drop_last(), c);
        assert forall|j: int| 0 <= j < s.len() - 1 implies s.drop_last()[j] == s[j] by {}
    }
}

/// Finds the last occurrence of `c` in `s`.
pub fn find_last(s: &[char], c: char) -> (r: Option<usize>)
    ensures
        r matches Some(i) ==> last_index_of(s@, c) == Some(i as int),
        r is None ==> last_index_of(s@, c) is None,
{
    let mut i = s.len();
    assert(s@.take(i as int) =~= s@);
    while i > 0
        invariant
            i <= s@.len(),
            last_index_of(s@, c) == last_index_of(s@.take(i as int), c),
        decreases i,
    {
        assert(s@.take(i as int).drop_last() =~= s@.take(i - 1));
        if s[i - 1] == c {
            return Some(i - 1);
        }
        i = i - 1;
    }
    None
}

/// The characters of `s` in positions `start..end`, as a `String`.
pub fn substring(s: &[char], start: usize, end: usize) -> (r: String)
    requires
        start <= end <= s@.len(),
    ensures
        r@ == s@.subrange(start as int, end as int),
{
    let mut r = String::new();
    let mut i = start;
    while i < end
        invariant
            start <= i <= end <= s@.len(),
            r@ == s@.subrange(start as int, i as int),
        decreases end - i,
    {
        push_char(&mut r, s[i]);
        i = i + 1;
        assert(r@ =~= s@.subrange(start as int, i as int));
    }
    r
}

} // verus!

verus! {

/// A copy of `s[start..end]`.
pub fn copy_range(s: &[char], start: usize, end: usize) -> (r: Vec<char>)
    requires
        start <= end <= s@.len(),
    ensures
        r@ == s@.subrange(start as int, end as int),
{
    let mut r: Vec<char> = Vec::new();
    let mut i = start;
    while i < end
        invariant
            start <= i <= end <= s@.len(),
            r@ == s@.subrange(start as int, i as int),
        decreases end - i,
    {
        r.push(s[i]);
        i = i + 1;
        assert(r@ =~= s@.subrange(start as int, i as int));
    }
    r
}

} // verus!

verus! {

/// Whether `c` is an ASCII decimal digit.
pub open spec fn is_digit(c: char) -> bool {
    '0' <= c <= '9'
}

/// Whether every character of `s` is an ASCII decimal digit.
pub open spec fn all_digits(s: Seq<char>) -> bool {
    forall|i: int| 0 <= i < s.len() ==> #[trigger] is_digit(s[i])
}

/// The value of a run of decimal digits.
pub open spec fn digits_value(s: Seq<char>) -> int
    decreases s.len(),
{
    if s.len() == 0 {
        0
    } else {
        digits_value(s.drop_last()) * 10 + (s.last() as int - '0' as int)
    }
}

/// What `str::parse::<u8>` gives for a string already known to hold only
/// digits: its value, if it is non-empty and fits.
pub open spec fn small_number(s: Seq<char>) -> Option<int> {
    if s.len() > 0 && all_digits(s) && digits_value(s) <= 255 {
        Some(digits_value(s))
    } else {
        None
    }
}

proof fn lemma_digits_value_nonneg(s: Seq<char>)
    requires
        all_digits(s),
    ensures
        digits_value(s) >= 0,
    decreases s.len(),
{
    if s.len() > 0 {
        assert(is_digit(s[s.len() - 1]));
        assert forall|i: int| 0 <= i < s.drop_last().len() implies #[trigger] is_digit(
            s.drop_last()[i],
        ) by {
            assert(is_digit(s[i]));
        }
        lemma_digits_value_nonneg(s.drop_last());
    }
}

/// Parses `s[start..end]` as a small decimal number: digits only, at least
/// one of them, value at most 255. This is `str::parse::<u8>` on a string
/// whose characters were already checked to be digits.
pub fn parse_small(s: &[char], start: usize, end: usize) -> (r: Option<u32>)
    requires
        start <= end <= s@.len(),
    ensures
        r matches Some(v) ==> small_number(s@.subrange(start as int, end as int)) == Some(v as int),
        r is None ==> small_number(s@.subrange(start as int, end as int)) is None,
{
    if start == end {
        return None;
    }
    let mut value: u32 = 0;
    let mut i = start;
    while i < end
        invariant
            start <= i <= end <= s@.len(),
            all_digits(s@.subrange(start as int, i as int)),
            value == digits_value(s@.subrange(start as int, i as int)),
            value <= 255,
        decreases end - i,
    {
        let c = s[i];
        let ghost prefix = s@.subrange(start as int, i + 1);
        assert(prefix.drop_last() =~= s@.subrange(start as int, i as int));
        if !('0' <= c && c <= '9') {
            assert(!is_digit(prefix[prefix.len() - 1]));
            return None;
        }
        let next = value * 10 + (c as u32 - '0' as u32);
        if next > 255 {
            proof {
                assert(s@.subrange(start as int, end as int).take(i - start + 1) =~= prefix);
                assert(digits_value(prefix) == value * 10 + (c as int - '0' as int));
                assert forall|j: int| 0 <= j < prefix.len() implies #[trigger] is_digit(prefix[j]) by {
                    if j < prefix.len() - 1 {
                        assert(prefix[j] == s@.subrange(start as int, i as int)[j]);
                    }
                }
                lemma_rest_exceeds(s@.subrange(start as int, end as int), i - start + 1);
            }
            return None;
        }
        proof {
            assert forall|j: int| 0 <= j < prefix.len() implies #[trigger] is_digit(prefix[j]) by {
                if j < prefix.len() - 1 {
                    assert(prefix[j] == s@.subrange(start as int, i as int)[j]);
                }
            }
        }
        value = next;
        i = i + 1;
    }
    Some(value)
}

/// Once a prefix of digits exceeds 255, so does the whole digit run, or it
/// contains a non-digit.
proof fn lemma_rest_exceeds(s: Seq<char>, k: int)
    requires
        0 < k <= s.len(),
        all_digits(s.take(k)),
        digits_value(s.take(k)) > 255,
    ensures
        small_number(s) is None,
    decreases s.len() - k,
{
    if k < s.len() {
        if all_digits(s.take(k + 1)) {
            assert(s.take(k + 1).drop_last() =~= s.take(k));
            assert(is_digit(s.take(k + 1)[k]));
            lemma_rest_exceeds(s, k + 1);
        } else {
            assert(!all_digits(s)) by {
                let j = choose|j: int| 0 <= j < k + 1 && !is_digit(#[trigger] s.take(k + 1)[j]);
                assert(s.take(k + 1)[j] == s[j]);
            }
        }
    } else {
        assert(s.take(k) =~= s);
    }
}

} // verus!

verus! {

/// The ASCII digit for `d`, which is below ten.
pub open spec fn digit_char(d: int) -> char {
    if d == 0 {
        '0'
    } else if d == 1 {
        '1'
    } else if d == 2 {
        '2'
    } else if d == 3 {
        '3'
    } else if d == 4 {
        '4'
    } else if d == 5 {
        '5'
    } else if d == 6 {
        '6'
    } else if d == 7 {
        '7'
    } else if d == 8 {
        '8'
    } else {
        '9'
    }
}

/// The decimal rendering of `n`, without leading zeros.
pub open spec fn decimal(n: nat) -> Seq<char>
    decreases n,
{
    if n < 10 {
        seq![digit_char(n as int)]
    } else {
        decimal(n / 10).push(digit_char((n % 10) as int))
    }
}

/// `s` left-padded with `'0'` to at least `width` characters.
pub open spec fn zero_pad(s: Seq<char>, width: nat) -> Seq<char> {
    if s.len() >= width {
        s
    } else {
        Seq::new((width - s.len()) as nat, |_i: int| '0') + s
    }
}

fn digit_of(d: u64) -> (c: char)
    requires
        d < 10,
    ensures
        c == digit_char(d as int),
{
    match d {
        0 => '0',
        1 => '1',
        2 => '2',
        3 => '3',
        4 => '4',
        5 => '5',
        6 => '6',
        7 => '7',
        8 => '8',
        _ => '9',
    }
}

/// The decimal digits of `n`.
pub fn decimal_chars(n: u64) -> (v: Vec<char>)
    ensures
        v@ == decimal(n as nat),
    decreases n,
{
    if n < 10 {
        let mut v = Vec::new();
        v.push(digit_of(n));
        assert(v@ =~= seq![digit_char(n as int)]);
        v
    } else {
        let mut v = decimal_chars(n / 10);
        v.push(digit_of(n % 10));
        v
    }
}

/// Appends the decimal rendering of `n`, zero-padded to `width`.
pub fn push_padded(s: &mut String, n: u64, width: usize)
    ensures
        final(s)@ == old(s)@ + zero_pad(decimal(n as nat), width as nat),
{
    let digits = decimal_chars(n);
    let ghost start = s@;
    let mut pad: usize = 0;
    let missing: usize = if digits.len() < width {
        width - digits.len()
    } else {
        0
    };
    while pad < missing
        invariant
            pad <= missing,
            s@ == start + Seq::new(pad as nat, |_i: int| '0'),
        decreases missing - pad,
    {
        push_char(s, '0');
        pad = pad + 1;
        assert(s@ =~= start + Seq::new(pad as nat, |_i: int| '0'));
    }
    let mut i: usize = 0;
    let ghost mid = s@;
    while i < digits.len()
        invariant
            i <= digits@.len(),
            s@ == mid + digits@.take(i as int),
        decreases digits@.len() - i,
    {
        push_char(s, digits[i]);
        i = i + 1;
        assert(s@ =~= mid + digits@.take(i as int));
    }
    assert(digits@.take(digits@.len() as int) =~= digits@);
    assert(s@ =~= old(s)@ + zero_pad(decimal(n as nat), width as nat));
}

/// Appends the decimal rendering of `n`.
pub fn push_number(s: &mut String, n: u64)
    ensures
        final(s)@ == old(s)@ + decimal(n as nat),
{
    push_padded(s, n, 0);
}

} // verus!

verus! {

pub proof fn lemma_digits_value_bound(s: Seq<char>)
    requires
        all_digits(s),
    ensures
        0 <= digits_value(s) < pow10(s.len()),
    decreases s.len(),
{
    if s.len() > 0 {
        assert(is_digit(s[s.len() - 1]));
        assert forall|i: int| 0 <= i < s.drop_last().len() implies #[trigger] is_digit(
            s.drop_last()[i],
        ) by {
            assert(is_digit(s[i]));
        }
        lemma_digits_value_bound(s.drop_last());
    }
}

/// Ten to the power `n`.
pub open spec fn pow10(n: nat) -> int
    decreases n,
{
    if n == 0 {
        1
    } else {
        10 * pow10((n - 1) as nat)
    }
}

/// Parses `s[start..end]` when it is made of digits only (possibly none).
pub fn parse_digits(s: &[char], start: usize, end: usize) -> (r: Option<u64>)
    requires
        start <= end <= s@.len(),
        end - start <= 9,
    ensures
        r matches Some(v) ==> all_digits(s@.subrange(start as int, end as int)) && v
            == digits_value(s@.subrange(start as int, end as int)),
        r is None ==> !all_digits(s@.subrange(start as int, end as int)),
{
    let mut value: u64 = 0;
    let mut i = start;
    while i < end
        invariant
            start <= i <= end <= s@.len(),
            end - start <= 9,
            all_digits(s@.subrange(start as int, i as int)),
            value == digits_value(s@.subrange(start as int, i as int)),
        decreases end - i,
    {
        let c = s[i];
        let ghost prefix = s@.subrange(start as int, i + 1);
        assert(prefix.drop_last() =~= s@.subrange(start as int, i as int));
        if !('0' <= c && c <= '9') {
            assert(!is_digit(prefix[prefix.len() - 1]));
            assert(!all_digits(s@.subrange(start as int, end as int))) by {
                assert(s@.subrange(start as int, end as int)[i - start] == c);
            }
            return None;
        }
        proof {
            lemma_digits_value_bound(s@.subrange(start as int, i as int));
            assert(pow10((i - start) as nat) <= 100_000_000) by {
                reveal_with_fuel(pow10, 10);
            }
            assert forall|j: int| 0 <= j < prefix.len() implies #[trigger] is_digit(prefix[j]) by {
                if j < prefix.len() - 1 {
                    assert(prefix[j] == s@.subrange(start as int, i as int)[j]);
                }
            }
        }
        value = value * 10 + (c as u64 - '0' as u64);
        i = i + 1;
    }
    Some(value)
}

} // verus!

verus! {

/// The index of the first character of `s` satisfying `p`, if any.
pub open spec fn first_index_where(s: Seq<char>, p: spec_fn(char) -> bool) -> Option<int>
    decreases s.len(),
{
    if s.len() == 0 {
        None
    } else {
        match first_index_where(s.drop_last(), p) {
            Some(i) => Some(i),
            None => if p(s.last()) {
                Some(s.len() - 1)
            } else {
                None
            },
        }
    }
}

/// The index of the last character of `s` satisfying `p`, if any.
pub open spec fn last_index_where(s: Seq<char>, p: spec_fn(char) -> bool) -> Option<int>
    decreases s.len(),
{
    if s.len() == 0 {
        None
    } else if p(s.last()) {
        Some(s.len() - 1)
    } else {
        last_index_where(s.drop_last(), p)
    }
}

/// The predicate "is `c`".
pub open spec fn is_char(c: char) -> spec_fn(char) -> bool {
    |x: char| x == c
}

/// The predicate "is `a` or `b`".
pub open spec fn is_either(a: char, b: char) -> spec_fn(char) -> bool {
    |x: char| x == a || x == b
}

pub proof fn lemma_first_index_where(s: Seq<char>, p: spec_fn(char) -> bool)
    ensures
        first_index_where(s, p) matches Some(i) ==> 0 <= i < s.len() && p(s[i]) && (forall|j: int|
            0 <= j < i ==> !p(#[trigger] s[j])),
        first_index_where(s, p) is None ==> forall|j: int| 0 <= j < s.len() ==> !p(#[trigger] s[j]),
    decreases s.len(),
{
    if s.len() > 0 {
        lemma_first_index_where(s.drop_last(), p);
        assert forall|j: int| 0 <= j < s.len() - 1 implies s.drop_last()[j] == s[j] by {}
    }
}

/// Finds the first position in `s[start..end]` holding `a` or `b`.
pub fn find_first_either(s: &[char], start: usize, end: usize, a: char, b: char) -> (r: Option<
    usize,
>)
    requires
        start <= end <= s@.len(),
    ensures
        r matches Some(i) ==> start <= i < end && first_index_where(
            s@.subrange(start as int, end as int),
            is_either(a, b),
        ) == Some(i - start),
        r is None ==> first_index_where(s@.subrange(start as int, end as int), is_either(a, b))
            is None,
{
    let ghost p = is_either(a, b);
    let mut i = start;
    while i < end
        invariant
            start <= i <= end <= s@.len(),
            p == is_either(a, b),
            first_index_where(s@.subrange(start as int, i as int), p) is None,
        decreases end - i,
    {
        let ghost next = s@.subrange(start as int, i + 1);
        assert(next.drop_last() =~= s@.subrange(start as int, i as int));
        if s[i] == a || s[i] == b {
            proof {
                lemma_prefix_first(s@.subrange(start as int, end as int), i + 1 - start, p);
                assert(s@.subrange(start as int, end as int).take(i + 1 - start) =~= next);
            }
            return Some(i);
        }
        i = i + 1;
    }
    None
}

/// A first match found in a prefix is the first match of the whole.
pub proof fn lemma_prefix_first(s: Seq<char>, k: int, p: spec_fn(char) -> bool)
    requires
        0 <= k <= s.len(),
        first_index_where(s.take(k), p) is Some,
    ensures
        first_index_where(s, p) == first_index_where(s.take(k), p),
    decreases s.len() - k,
{
    if k < s.len() {
        assert(s.take(k + 1).drop_last() =~= s.take(k));
        lemma_prefix_first(s, k + 1, p);
    } else {
        assert(s.take(k) =~= s);
    }
}

/// Finds the last position in `s[start..end]` holding `a` or `b`.
pub fn find_last_either(s: &[char], start: usize, end: usize, a: char, b: char) -> (r: Option<
    usize,
>)
    requires
        start <= end <= s@.len(),
    ensures
        r matches Some(i) ==> start <= i < end && last_index_where(
            s@.subrange(start as int, end as int),
            is_either(a, b),
        ) == Some(i - start),
        r is None ==> last_index_where(s@.subrange(start as int, end as int), is_either(a, b))
            is None,
{
    let ghost p = is_either(a, b);
    let mut i = end;
    while i > start
        invariant
            start <= i <= end <= s@.len(),
            p == is_either(a, b),
            last_index_where(s@.subrange(start as int, end as int), p) == last_index_where(
                s@.subrange(start as int, i as int),
                p,
            ),
        decreases i - start,
    {
        assert(s@.subrange(start as int, i as int).drop_last() =~= s@.subrange(
            start as int,
            i - 1,
        ));
        if s[i - 1] == a || s[i - 1] == b {
            return Some(i - 1);
        }
        i = i - 1;
    }
    None
}

} // verus!

verus! {

/// Whether two character slices are equal.
pub fn chars_eq(a: &[char], b: &[char]) -> (r: bool)
    ensures
        r == (a@ == b@),
{
    if a.len() != b.len() {
        return false;
    }
    let mut i: usize = 0;
    while i < a.len()
        invariant
            a@.len() == b@.len(),
            i <= a@.len(),
            a@.take(i as int) == b@.take(i as int),
        decreases a@.len() - i,
    {
        if a[i] != b[i] {
            return false;
        }
        i = i + 1;
        assert(a@.take(i as int) =~= a@.take(i - 1).push(a@[i - 1]));
        assert(b@.take(i as int) =~= b@.take(i - 1).push(b@[i - 1]));
    }
    assert(a@.take(a@.len() as int) =~= a@);
    assert(b@.take(b@.len() as int) =~= b@);
    true
}

/// Whether two strings hold the same characters.
pub fn str_eq(a: &str, b: &str) -> (r: bool)
    ensures
        r == (a@ == b@),
{
    let x = chars_of(a);
    let y = chars_of(b);
    chars_eq(x.as_slice(), y.as_slice())
}

/// Whether `s` starts with the characters of `prefix`.
pub fn has_prefix(s: &[char], prefix: &str) -> (r: bool)
    ensures
        r == starts_with(s@, prefix@),
{
    let p = chars_of(prefix);
    if p.len() > s.len() {
        return false;
    }
    let head = copy_range(s, 0, p.len());
    chars_eq(head.as_slice(), p.as_slice())
}

} // verus!

verus! {

/// Whether `c` is white space, as `char::is_whitespace` defines it.
pub open spec fn is_white(c: char) -> bool {
    ||| c == '\t' || c == '\n' || c == '\u{0B}' || c == '\u{0C}' || c == '\r' || c == ' '
    ||| c == '\u{85}' || c == '\u{A0}' || c == '\u{1680}'
    ||| ('\u{2000}' <= c && c <= '\u{200A}')
    ||| c == '\u{2028}' || c == '\u{2029}' || c == '\u{202F}' || c == '\u{205F}' || c == '\u{3000}'
}

/// Whether `c` is white space, as `char::is_whitespace` defines it.
pub fn is_white_char(c: char) -> (b: bool)
    ensures
        b == is_white(c),
{
    c == '\t' || c == '\n' || c == '\u{0B}' || c == '\u{0C}' || c == '\r' || c == ' ' || c
        == '\u{85}' || c == '\u{A0}' || c == '\u{1680}' || ('\u{2000}' <= c && c <= '\u{200A}')
        || c == '\u{2028}' || c == '\u{2029}' || c == '\u{202F}' || c == '\u{205F}' || c
        == '\u{3000}'
}

/// `t` without leading white space.
pub open spec fn trim_start_white(t: Seq<char>) -> Seq<char>
    decreases t.len(),
{
    if t.len() > 0 && is_white(t[0]) {
        trim_start_white(t.drop_first())
    } else {
        t
    }
}

/// `t` without trailing white space.
pub open spec fn trim_end_white(t: Seq<char>) -> Seq<char>
    decreases t.len(),
{
    if t.len() > 0 && is_white(t.last()) {
        trim_end_white(t.drop_last())
    } else {
        t
    }
}

/// `t` without leading or trailing white space, like `str::trim`.
pub open spec fn trim_white(t: Seq<char>) -> Seq<char> {
    trim_end_white(trim_start_white(t))
}

/// The characters of `s` without leading or trailing white space.
pub fn trim_chars(s: &[char]) -> (r: Vec<char>)
    ensures
        r@ == trim_white(s@),
{
    let mut lo: usize = 0;
    assert(s@.skip(0) =~= s@);
    while lo < s.len() && is_white_char(s[lo])
        invariant
            lo <= s@.len(),
            trim_start_white(s@) == trim_start_white(s@.skip(lo as int)),
        decreases s@.len() - lo,
    {
        assert(s@.skip(lo as int).drop_first() =~= s@.skip(lo + 1));
        lo = lo + 1;
    }
    assert(trim_start_white(s@.skip(lo as int)) == s@.skip(lo as int));
    let mut hi: usize = s.len();
    while hi > lo && is_white_char(s[hi - 1])
        invariant
            lo <= hi <= s@.len(),
            trim_white(s@) == trim_end_white(s@.subrange(lo as int, hi as int)),
            trim_start_white(s@) == s@.skip(lo as int),
        decreases hi - lo,
    {
        assert(s@.subrange(lo as int, hi as int).drop_last() =~= s@.subrange(lo as int, hi - 1));
        hi = hi - 1;
    }
    assert(s@.skip(lo as int) =~= s@.subrange(lo as int, s@.len() as int));
    copy_range(s, lo, hi)
}

/// The character sequences held by a list of character vectors.
pub open spec fn views(v: Seq<Vec<char>>) -> Seq<Seq<char>> {
    v.map_values(|p: Vec<char>| p@)
}

/// The pieces of `s` split at every `sep`, as `split_on` describes them.
pub fn split_chars(s: &[char], sep: char) -> (r: Vec<Vec<char>>)
    ensures
        views(r@) == split_on(s@, sep),
{
    let mut parts: Vec<Vec<char>> = Vec::new();
    let mut current: Vec<char> = Vec::new();
    let mut i: usize = 0;
    assert(s@.take(0) =~= Seq::<char>::empty());
    while i < s.len()
        invariant
            i <= s@.len(),
            split_on(s@.take(i as int), sep) == views(parts@).push(current@),
        decreases s@.len() - i,
    {
        assert(s@.take(i + 1).drop_last() =~= s@.take(i as int));
        if s[i] == sep {
            let done = current;
            parts.push(done);
            current = Vec::new();
            assert(views(parts@) =~= split_on(s@.take(i as int), sep));
            assert(split_on(s@.take(i + 1), sep) =~= views(parts@).push(current@));
        } else {
            let ghost before = split_on(s@.take(i as int), sep);
            current.push(s[i]);
            assert(split_on(s@.take(i + 1), sep) =~= views(parts@).push(current@));
        }
        i = i + 1;
    }
    assert(s@.take(i as int) =~= s@);
    parts.push(current);
    assert(views(parts@) =~= split_on(s@, sep));
    parts
}

/// The pieces in `parts` joined with `sep` between consecutive ones.
pub fn join_chars(parts: &Vec<Vec<char>>, sep: char) -> (r: Vec<char>)
    ensures
        r@ == join_with(views(parts@), sep),
{
    let mut out: Vec<char> = Vec::new();
    let mut i: usize = 0;
    while i < parts.len()
        invariant
            i <= parts@.len(),
            out@ == join_with(views(parts@).take(i as int), sep),
        decreases parts@.len() - i,
    {
        let ghost done = views(parts@).take(i as int);
        assert(views(parts@).take(i + 1).drop_last() =~= done);
        if i > 0 {
            out.push(sep);
        }
        let piece = &parts[i];
        let ghost head = out@;
        let mut k: usize = 0;
        while k < piece.len()
            invariant
                k <= piece@.len(),
                out@ == head + piece@.take(k as int),
            decreases piece@.len() - k,
        {
            out.push(piece[k]);
            k = k + 1;
            assert(out@ =~= head + piece@.take(k as int));
        }
        assert(piece@.take(piece@.len() as int) =~= piece@);
        proof {
            let next = views(parts@).take(i + 1);
            assert(next.last() == piece@);
            if i == 0 {
                assert(next.len() == 1);
                assert(out@ =~= piece@);
            }
        }
        i = i + 1;
    }
    assert(views(parts@).take(i as int) =~= views(parts@));
    out
}

} // verus!
