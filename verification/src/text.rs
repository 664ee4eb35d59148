//! Character-level text helpers shared by the parsers of this crate.
//!
//! Strings are modelled as sequences of Unicode scalar values (`Seq<char>`), the view that
//! vstd gives to `str` and `String`.
use vstd::prelude::*;

verus! {

/// The Unicode `White_Space` property, the set that `char::is_whitespace` tests.
pub open spec fn is_space(c: char) -> bool {
    let n = c as u32;
    ||| 0x9 <= n <= 0xd
    ||| n == 0x20
    ||| n == 0x85
    ||| n == 0xa0
    ||| n == 0x1680
    ||| 0x2000 <= n <= 0x200a
    ||| n == 0x2028
    ||| n == 0x2029
    ||| n == 0x202f
    ||| n == 0x205f
    ||| n == 0x3000
}

/// The Unicode general category `Cc`, the set that `char::is_control` tests.
pub open spec fn is_control_char(c: char) -> bool {
    let n = c as u32;
    n <= 0x1f || (0x7f <= n <= 0x9f)
}

/// Whether `c` is white space in the sense of `char::is_whitespace`.
pub fn is_whitespace(c: char) -> (r: bool)
    ensures
        r == is_space(c),
{
    let n = c as u32;
    (0x9 <= n && n <= 0xd) || n == 0x20 || n == 0x85 || n == 0xa0 || n == 0x1680 || (0x2000 <= n
        && n <= 0x200a) || n == 0x2028 || n == 0x2029 || n == 0x202f || n == 0x205f || n == 0x3000
}

/// Whether `c` is a control character in the sense of `char::is_control`.
pub fn is_control(c: char) -> (r: bool)
    ensures
        r == is_control_char(c),
{
    let n = c as u32;
    n <= 0x1f || (0x7f <= n && n <= 0x9f)
}

/// `s` without its leading white space.
pub open spec fn trim_start_spec(s: Seq<char>) -> Seq<char>
    decreases s.len(),
{
    if s.len() > 0 && is_space(s[0]) {
        trim_start_spec(s.drop_first())
    } else {
        s
    }
}

/// `s` without its trailing white space.
pub open spec fn trim_end_spec(s: Seq<char>) -> Seq<char>
    decreases s.len(),
{
    if s.len() > 0 && is_space(s.last()) {
        trim_end_spec(s.drop_last())
    } else {
        s
    }
}

/// `s` without leading and trailing white space, as `str::trim` gives it.
pub open spec fn trim_spec(s: Seq<char>) -> Seq<char> {
    trim_end_spec(trim_start_spec(s))
}

/// The ASCII lower-case form of `c`: `A`..`Z` become `a`..`z`, every other character stays.
pub open spec fn ascii_lower_char(c: char) -> char {
    if 'A' <= c && c <= 'Z' {
        ((c as u32) + 32) as char
    } else {
        c
    }
}

/// `s` with every ASCII upper-case letter made lower case, as `str::to_ascii_lowercase`.
pub open spec fn ascii_lower(s: Seq<char>) -> Seq<char> {
    s.map_values(|c: char| ascii_lower_char(c))
}

/// Whether `prefix` is a prefix of `s`.
pub open spec fn has_prefix(s: Seq<char>, prefix: Seq<char>) -> bool {
    prefix.len() <= s.len() && s.subrange(0, prefix.len() as int) == prefix
}

/// Whether `needle` occurs in `hay` at position `i`.
pub open spec fn occurs_at(hay: Seq<char>, needle: Seq<char>, i: int) -> bool {
    0 <= i && i + needle.len() <= hay.len() && hay.subrange(i, i + needle.len()) == needle
}

/// Whether `needle` occurs somewhere in `hay` (the empty needle occurs everywhere).
pub open spec fn contains_text(hay: Seq<char>, needle: Seq<char>) -> bool {
    exists|i: int| occurs_at(hay, needle, i)
}

/// The texts of `items` joined by `sep`, as `[..].join(sep)` gives them.
pub open spec fn join_spec(items: Seq<Seq<char>>, sep: Seq<char>) -> Seq<char>
    decreases items.len(),
{
    if items.len() == 0 {
        seq![]
    } else if items.len() == 1 {
        items[0]
    } else {
        join_spec(items.drop_last(), sep) + sep + items.last()
    }
}

/// The decimal digit that stands for `d`.
pub open spec fn digit_char(d: nat) -> char {
    (('0' as u32) + d) as char
}

/// The decimal notation of `n`, without leading zeros, as `format!("{}", n)` gives it.
pub open spec fn decimal(n: nat) -> Seq<char>
    decreases n,
{
    if n < 10 {
        seq![digit_char(n)]
    } else {
        decimal(n / 10).push(digit_char(n % 10))
    }
}

/// The decimal notation of `n` is made of digits and reads back as `n`.
pub proof fn lemma_decimal_reads_back(n: nat)
    ensures
        decimal(n).len() > 0,
        all_digits(decimal(n)),
        digits_value(decimal(n)) == n,
    decreases n,
{
    let d = decimal(n);
    if n < 10 {
        assert(d.drop_last() =~= Seq::<char>::empty());
        assert(digits_value(d.drop_last()) == 0);
        assert(((d.last() as u32) - ('0' as u32)) as nat == n);
    } else {
        lemma_decimal_reads_back(n / 10);
        assert(d.drop_last() =~= decimal(n / 10));
        assert(((d.last() as u32) - ('0' as u32)) as nat == n % 10);
        assert(digits_value(d) == digits_value(decimal(n / 10)) * 10 + n % 10);
        assert((n / 10) * 10 + n % 10 == n);
        assert forall|i: int| 0 <= i < d.len() implies is_digit(#[trigger] d[i]) by {
            if i < d.len() - 1 {
                assert(d[i] == decimal(n / 10)[i]);
            }
        }
    }
}

/// Whether `c` is one of the ASCII digits `0`..`9`.
pub open spec fn is_digit(c: char) -> bool {
    '0' <= c && c <= '9'
}

/// The value of a string of decimal digits (leading zeros allowed).
pub open spec fn digits_value(s: Seq<char>) -> nat
    decreases s.len(),
{
    if s.len() == 0 {
        0
    } else {
        digits_value(s.drop_last()) * 10 + ((s.last() as u32) - ('0' as u32)) as nat
    }
}

/// The digits of a number text: the text without a leading `+`.
pub open spec fn unsigned_digits(s: Seq<char>) -> Seq<char> {
    if s.len() > 0 && s[0] == '+' {
        s.drop_first()
    } else {
        s
    }
}

/// Whether every character of `s` is an ASCII digit.
pub open spec fn all_digits(s: Seq<char>) -> bool {
    forall|i: int| 0 <= i < s.len() ==> is_digit(#[trigger] s[i])
}

/// What `s.parse::<u16>()` gives: an optional `+`, then at least one ASCII digit and nothing
/// else, with a value that fits in 16 bits.
pub open spec fn parse_u16_spec(s: Seq<char>) -> Option<u16> {
    let digits = unsigned_digits(s);
    if digits.len() > 0 && all_digits(digits) && digits_value(digits) <= 0xffff {
        Some(digits_value(digits) as u16)
    } else {
        None
    }
}

/// The characters of `text`, in order.
pub fn chars_of(text: &str) -> (chars: Vec<char>)
    ensures
        chars@ == text@,
{
    let mut chars: Vec<char> = Vec::new();
    for c in it: text.chars()
        invariant
            chars@ == it.seq().take(it.index() as int),
            it.seq() == text@,
    {
        chars.push(c);
    }
    chars
}

/// Appends one character to `s` (`String::push`).
#[verifier::external_body]
pub fn push_char(s: &mut String, c: char)
    ensures
        final(s)@ == old(s)@.push(c),
{
    s.push(c);
}

/// The string made of `chars`, in order.
pub fn string_of(chars: &[char]) -> (s: String)
    ensures
        s@ == chars@,
{
    let mut s = String::new();
    let mut i: usize = 0;
    while i < chars.len()
        invariant
            i <= chars@.len(),
            s@ == chars@.take(i as int),
        decreases chars@.len() - i,
    {
        push_char(&mut s, chars[i]);
        i = i + 1;
        assert(s@ == chars@.take(i as int));
    }
    assert(chars@.take(chars@.len() as int) == chars@);
    s
}

/// Appends the characters of `tail` to `s`.
pub fn push_chars(s: &mut Vec<char>, tail: &[char])
    ensures
        final(s)@ == old(s)@ + tail@,
{
    let mut i: usize = 0;
    while i < tail.len()
        invariant
            i <= tail@.len(),
            s@ == old(s)@ + tail@.take(i as int),
        decreases tail@.len() - i,
    {
        s.push(tail[i]);
        i = i + 1;
        assert(s@ == old(s)@ + tail@.take(i as int));
    }
    assert(tail@.take(tail@.len() as int) == tail@);
}

/// `s[from..to]` as a vector of characters.
pub fn slice_chars(s: &[char], from: usize, to: usize) -> (r: Vec<char>)
    requires
        from <= to <= s@.len(),
    ensures
        r@ == s@.subrange(from as int, to as int),
{
    let mut r: Vec<char> = Vec::new();
    let mut i = from;
    while i < to
        invariant
            from <= i <= to,
            to <= s@.len(),
            r@ == s@.subrange(from as int, i as int),
        decreases to - i,
    {
        r.push(s[i]);
        i = i + 1;
    }
    r
}

/// Whether the characters of `a` and `b` are equal.
pub fn chars_equal(a: &[char], b: &[char]) -> (r: bool)
    ensures
        r == (a@ == b@),
{
    if a.len() != b.len() {
        return false;
    }
    let mut i: usize = 0;
    while i < a.len()
        invariant
            i <= a@.len(),
            a@.len() == b@.len(),
            forall|j: int| 0 <= j < i ==> a@[j] == b@[j],
        decreases a@.len() - i,
    {
        if a[i] != b[i] {
            return false;
        }
        i = i + 1;
    }
    assert(a@ =~= b@);
    true
}

/// Whether `s` holds `needle` at position `at`.
pub fn occurs_at_exec(s: &[char], needle: &[char], at: usize) -> (r: bool)
    ensures
        r == occurs_at(s@, needle@, at as int),
{
    let m = s.len();
    let n = needle.len();
    if at > m || n > m - at {
        return false;
    }
    let mut i: usize = 0;
    while i < n
        invariant
            i <= n,
            n == needle@.len(),
            m == s@.len(),
            at + n <= m,
            forall|j: int| 0 <= j < i ==> s@[at + j] == needle@[j],
        decreases n - i,
    {
        if s[at + i] != needle[i] {
            assert(s@.subrange(at as int, at + needle@.len())[i as int] != needle@[i as int]);
            return false;
        }
        i = i + 1;
    }
    assert(s@.subrange(at as int, at + needle@.len()) =~= needle@);
    true
}

/// Whether `s` starts with `prefix`.
pub fn starts_with(s: &[char], prefix: &[char]) -> (r: bool)
    ensures
        r == has_prefix(s@, prefix@),
{
    occurs_at_exec(s, prefix, 0)
}

/// Whether `needle` occurs in `hay`, as `str::contains` with a string pattern.
pub fn contains_chars(hay: &[char], needle: &[char]) -> (r: bool)
    ensures
        r == contains_text(hay@, needle@),
{
    if needle.len() > hay.len() {
        return false;
    }
    let last = hay.len() - needle.len();
    let mut i: usize = 0;
    while i < last
        invariant
            needle@.len() <= hay@.len(),
            last == hay@.len() - needle@.len(),
            i <= last,
            forall|j: int| 0 <= j < i ==> !occurs_at(hay@, needle@, j),
        decreases last - i,
    {
        if occurs_at_exec(hay, needle, i) {
            return true;
        }
        i = i + 1;
    }
    if occurs_at_exec(hay, needle, last) {
        return true;
    }
    assert forall|j: int| !occurs_at(hay@, needle@, j) by {
        if occurs_at(hay@, needle@, j) {
            assert(j <= last);
        }
    }
    false
}

/// `s` with leading and trailing white space removed (`str::trim`).
pub fn trim_chars(s: &[char]) -> (r: Vec<char>)
    ensures
        r@ == trim_spec(s@),
{
    let mut start: usize = 0;
    assert(s@.subrange(0, s@.len() as int) =~= s@);
    while start < s.len() && is_whitespace(s[start])
        invariant
            start <= s@.len(),
            trim_start_spec(s@) == trim_start_spec(s@.subrange(start as int, s@.len() as int)),
        decreases s@.len() - start,
    {
        let ghost rest = s@.subrange(start as int, s@.len() as int);
        assert(rest.drop_first() =~= s@.subrange(start + 1, s@.len() as int));
        start = start + 1;
    }
    let ghost mid = s@.subrange(start as int, s@.len() as int);
    assert(trim_start_spec(mid) == mid);
    let mut end: usize = s.len();
    while end > start && is_whitespace(s[end - 1])
        invariant
            start <= end <= s@.len(),
            mid == s@.subrange(start as int, s@.len() as int),
            trim_end_spec(mid) == trim_end_spec(s@.subrange(start as int, end as int)),
        decreases end - start,
    {
        let ghost cur = s@.subrange(start as int, end as int);
        assert(cur.drop_last() =~= s@.subrange(start as int, end - 1));
        end = end - 1;
    }
    slice_chars(s, start, end)
}

/// `s` with ASCII upper-case letters made lower case (`str::to_ascii_lowercase`).
pub fn ascii_lowercase(s: &[char]) -> (r: Vec<char>)
    ensures
        r@ == ascii_lower(s@),
{
    let mut r: Vec<char> = Vec::new();
    let mut i: usize = 0;
    while i < s.len()
        invariant
            i <= s@.len(),
            r@ == ascii_lower(s@.take(i as int)),
        decreases s@.len() - i,
    {
        let c = s[i];
        let l = if 'A' <= c && c <= 'Z' {
            let n = (c as u32) + 32;
            assert(n < 128);
            char_from_ascii(n)
        } else {
            c
        };
        r.push(l);
        i = i + 1;
        assert(ascii_lower(s@.take(i as int)) =~= ascii_lower(s@.take(i - 1)).push(
            ascii_lower_char(s@[i - 1]),
        ));
    }
    assert(s@.take(s@.len() as int) == s@);
    r
}

/// The character with code `n`, for `n` below 128.
fn char_from_ascii(n: u32) -> (c: char)
    requires
        n < 128,
    ensures
        c == n as char,
{
    let b = n as u8;
    b as char
}

/// The decimal notation of `n` (`n.to_string()`).
pub fn decimal_chars(n: u16) -> (r: Vec<char>)
    ensures
        r@ == decimal(n as nat),
    decreases n,
{
    let d = n % 10;
    let c = char_from_ascii(('0' as u32) + (d as u32));
    if n < 10 {
        let mut r = Vec::new();
        r.push(c);
        r
    } else {
        let mut r = decimal_chars(n / 10);
        r.push(c);
        r
    }
}

/// The value of `s` as `s.parse::<u16>()` reads it, if it is a valid 16-bit number.
pub fn parse_u16(s: &[char]) -> (r: Option<u16>)
    ensures
        r == parse_u16_spec(s@),
{
    let start: usize = if s.len() > 0 && s[0] == '+' {
        1
    } else {
        0
    };
    let ghost digits = unsigned_digits(s@);
    assert(digits =~= s@.subrange(start as int, s@.len() as int));
    if start >= s.len() {
        return None;
    }
    let mut value: u32 = 0;
    let mut i = start;
    while i < s.len()
        invariant
            start <= i <= s@.len(),
            digits == s@.subrange(start as int, s@.len() as int),
            digits == unsigned_digits(s@),
            start < s@.len(),
            value == digits_value(s@.subrange(start as int, i as int)),
            value <= 0xffff,
            forall|j: int| start <= j < i ==> is_digit(#[trigger] s@[j]),
        decreases s@.len() - i,
    {
        let c = s[i];
        if !('0' <= c && c <= '9') {
            assert(digits[i - start] == c);
            assert(!is_digit(digits[i - start]));
            assert(!all_digits(digits));
            return None;
        }
        let ghost prefix = s@.subrange(start as int, i + 1);
        assert(prefix.drop_last() =~= s@.subrange(start as int, i as int));
        value = value * 10 + ((c as u32) - ('0' as u32));
        assert(value == digits_value(prefix));
        i = i + 1;
        if value > 0xffff {
            proof {
                assert(s@.subrange(start as int, i as int) =~= digits.take(i - start));
                if all_digits(digits) {
                    lemma_digits_value_grows(digits, i - start);
                    assert(digits_value(digits) > 0xffff);
                }
            }
            return None;
        }
    }
    assert(s@.subrange(start as int, s@.len() as int) == digits);
    assert forall|j: int| 0 <= j < digits.len() implies is_digit(#[trigger] digits[j]) by {
        assert(digits[j] == s@[start + j]);
    }
    assert(all_digits(digits));
    Some(value as u16)
}

/// A prefix of a digit string never has a larger value than the whole string.
pub proof fn lemma_digits_value_grows(s: Seq<char>, k: int)
    requires
        0 <= k <= s.len(),
        forall|i: int| 0 <= i < s.len() ==> is_digit(#[trigger] s[i]),
    ensures
        digits_value(s.take(k)) <= digits_value(s),
    decreases s.len(),
{
    if k < s.len() {
        assert(s.drop_last().take(k) =~= s.take(k));
        assert forall|i: int| 0 <= i < s.drop_last().len() implies is_digit(
            #[trigger] s.drop_last()[i],
        ) by {
            assert(s.drop_last()[i] == s[i]);
        }
        lemma_digits_value_grows(s.drop_last(), k);
    } else {
        assert(s.take(k) =~= s);
    }
}

/// Whether `a` comes before `b` in the order of `String`: character by character by code
/// point, a proper prefix first.
pub open spec fn text_less(a: Seq<char>, b: Seq<char>) -> bool
    decreases a.len(),
{
    if a.len() == 0 {
        b.len() > 0
    } else if b.len() == 0 {
        false
    } else if a[0] != b[0] {
        a[0] < b[0]
    } else {
        text_less(a.drop_first(), b.drop_first())
    }
}

/// No text comes before itself.
pub proof fn lemma_text_less_irreflexive(a: Seq<char>)
    ensures
        !text_less(a, a),
    decreases a.len(),
{
    if a.len() > 0 {
        lemma_text_less_irreflexive(a.drop_first());
    }
}

/// The order of texts is transitive.
pub proof fn lemma_text_less_transitive(a: Seq<char>, b: Seq<char>, c: Seq<char>)
    requires
        text_less(a, b),
        text_less(b, c),
    ensures
        text_less(a, c),
    decreases a.len(),
{
    if a.len() > 0 && b.len() > 0 && c.len() > 0 && a[0] == b[0] && b[0] == c[0] {
        lemma_text_less_transitive(a.drop_first(), b.drop_first(), c.drop_first());
    }
}

/// Of two different texts, one comes before the other.
pub proof fn lemma_text_less_total(a: Seq<char>, b: Seq<char>)
    ensures
        a == b || text_less(a, b) || text_less(b, a),
    decreases a.len(),
{
    if a.len() > 0 && b.len() > 0 {
        if a[0] == b[0] {
            lemma_text_less_total(a.drop_first(), b.drop_first());
            if a.drop_first() == b.drop_first() {
                assert(a =~= seq![a[0]] + a.drop_first());
                assert(b =~= seq![b[0]] + b.drop_first());
            }
        }
    } else if a.len() == 0 && b.len() == 0 {
        assert(a =~= b);
    }
}

/// Whether `a` comes before `b` (see `text_less`).
pub fn text_less_exec(a: &[char], b: &[char]) -> (r: bool)
    ensures
        r == text_less(a@, b@),
{
    let mut i: usize = 0;
    assert(a@.skip(0) =~= a@ && b@.skip(0) =~= b@);
    while i < a.len() && i < b.len() && a[i] == b[i]
        invariant
            i <= a@.len(),
            i <= b@.len(),
            text_less(a@, b@) == text_less(a@.skip(i as int), b@.skip(i as int)),
        decreases a@.len() - i,
    {
        assert(a@.skip(i as int).drop_first() =~= a@.skip(i + 1));
        assert(b@.skip(i as int).drop_first() =~= b@.skip(i + 1));
        i = i + 1;
    }
    if i == a.len() {
        i < b.len()
    } else if i == b.len() {
        false
    } else {
        a[i] < b[i]
    }
}

/// Whether `a` comes before `b` or equals it.
pub open spec fn text_leq(a: Seq<char>, b: Seq<char>) -> bool {
    a == b || text_less(a, b)
}

/// The order of `String` as a relation.
pub open spec fn text_order() -> spec_fn(Seq<char>, Seq<char>) -> bool {
    |a: Seq<char>, b: Seq<char>| text_leq(a, b)
}

/// `text_leq` orders all texts.
pub proof fn lemma_text_leq_total_ordering()
    ensures
        vstd::relations::total_ordering(text_order()),
{
    let leq = text_order();
    assert forall|a: Seq<char>, b: Seq<char>| #[trigger] leq(a, b) && leq(b, a) implies a == b by {
        if a != b {
            lemma_text_less_transitive(a, b, a);
            lemma_text_less_irreflexive(a);
        }
    }
    assert forall|a: Seq<char>, b: Seq<char>, c: Seq<char>|
        #[trigger] leq(a, b) && #[trigger] leq(b, c) implies leq(a, c) by {
        if a != b && b != c {
            lemma_text_less_transitive(a, b, c);
        }
    }
    assert forall|a: Seq<char>, b: Seq<char>| #[trigger] leq(a, b) || leq(b, a) by {
        lemma_text_less_total(a, b);
    }
}

} // verus!
