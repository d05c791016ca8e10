//! Character and string primitives shared by the parsers and renderers.
//!
//! Strings are handled as sequences of `char`: every helper here takes a
//! `&[char]` (or converts a `&str` once with [`chars_of`]) and states its
//! result over `Seq<char>`.
use vstd::prelude::*;

verus! {

// ---------------------------------------------------------------------------
// Conversions between `str`/`String` and character vectors
// ---------------------------------------------------------------------------

/// The characters of a string slice, in order.
pub fn chars_of(s: &str) -> (v: Vec<char>)
    ensures
        v@ == s@,
{
    let mut v: Vec<char> = Vec::new();
    for c in it: s.chars()
        invariant
            it.seq() == s@,
            v@.len() == it.index(),
            forall|j: int| 0 <= j < v@.len() ==> v@[j] == s@[j],
    {
        v.push(c);
    }
    assert(v@ =~= s@);
    v
}

/// Appends one character to a `String` (`String::push`).
#[verifier::external_body]
pub(crate) fn push_char(s: &mut String, c: char)
    ensures
        final(s)@ == old(s)@.push(c),
{
    s.push(c);
}

/// A `String` holding exactly the given characters.
pub fn string_of(v: &[char]) -> (s: String)
    ensures
        s@ == v@,
{
    let mut s = String::new();
    let n = v.len();
    for i in 0..n
        invariant
            n == v@.len(),
            s@ == v@.take(i as int),
    {
        push_char(&mut s, v[i]);
        proof {
            assert(v@.take(i + 1) == v@.take(i as int).push(v@[i as int]));
        }
    }
    proof {
        assert(v@.take(n as int) == v@);
    }
    s
}


// ---------------------------------------------------------------------------
// Character classes
// ---------------------------------------------------------------------------

/// Unicode general category `Cc`: U+0000..=U+001F and U+007F..=U+009F.
pub open spec fn is_control_spec(c: char) -> bool {
    (c as u32) <= 0x1f || (0x7f <= (c as u32) && (c as u32) <= 0x9f)
}

/// Whether `c` is a control character (general category `Cc`).
pub fn is_control(c: char) -> (r: bool)
    ensures
        r == is_control_spec(c),
{
    let n = c as u32;
    n <= 0x1f || (0x7f <= n && n <= 0x9f)
}

/// The Unicode `White_Space` property, the set that `str::trim` strips.
pub open spec fn is_whitespace_spec(c: char) -> bool {
    let n = c as u32;
    ||| (0x09 <= n && n <= 0x0d)
    ||| n == 0x20
    ||| n == 0x85
    ||| n == 0xa0
    ||| n == 0x1680
    ||| (0x2000 <= n && n <= 0x200a)
    ||| n == 0x2028
    ||| n == 0x2029
    ||| n == 0x202f
    ||| n == 0x205f
    ||| n == 0x3000
}

/// Whether `c` has the Unicode `White_Space` property.
pub fn is_whitespace(c: char) -> (r: bool)
    ensures
        r == is_whitespace_spec(c),
{
    let n = c as u32;
    (0x09 <= n && n <= 0x0d) || n == 0x20 || n == 0x85 || n == 0xa0 || n == 0x1680 || (0x2000
        <= n && n <= 0x200a) || n == 0x2028 || n == 0x2029 || n == 0x202f || n == 0x205f || n
        == 0x3000
}

/// ASCII lowercase mapping of one character; other characters are unchanged.
pub open spec fn ascii_lower_spec(c: char) -> char {
    if 'A' <= c && c <= 'Z' {
        ((c as u32) + 32) as char
    } else {
        c
    }
}

/// ASCII lowercase mapping of one character.
pub fn ascii_lower(c: char) -> (r: char)
    ensures
        r == ascii_lower_spec(c),
{
    if 'A' <= c && c <= 'Z' {
        let n = (c as u32) + 32;
        assert(0x61 <= n && n <= 0x7a);
        n as u8 as char
    } else {
        c
    }
}

/// `s` with every character ASCII-lowercased.
pub open spec fn ascii_lowercase_spec(s: Seq<char>) -> Seq<char> {
    s.map_values(|c: char| ascii_lower_spec(c))
}

/// ASCII case-insensitive equality: same length and equal after ASCII
/// lowercasing each character.
pub open spec fn eq_ignore_ascii_case_spec(a: Seq<char>, b: Seq<char>) -> bool {
    ascii_lowercase_spec(a) == ascii_lowercase_spec(b)
}

/// Whether two strings are an ASCII case-insensitive match.
pub fn eq_ignore_ascii_case(a: &[char], b: &[char]) -> (r: bool)
    ensures
        r == eq_ignore_ascii_case_spec(a@, b@),
{
    if a.len() != b.len() {
        proof {
            assert(ascii_lowercase_spec(a@).len() != ascii_lowercase_spec(b@).len());
        }
        return false;
    }
    let n = a.len();
    for i in 0..n
        invariant
            n == a@.len(),
            n == b@.len(),
            forall|j: int| 0 <= j < i ==> ascii_lower_spec(a@[j]) == ascii_lower_spec(b@[j]),
    {
        if ascii_lower(a[i]) != ascii_lower(b[i]) {
            proof {
                assert(ascii_lowercase_spec(a@)[i as int] != ascii_lowercase_spec(b@)[i as int]);
            }
            return false;
        }
    }
    proof {
        assert(ascii_lowercase_spec(a@) =~= ascii_lowercase_spec(b@));
    }
    true
}

/// ASCII-lowercased copy of a character sequence.
pub fn to_ascii_lowercase(s: &[char]) -> (r: Vec<char>)
    ensures
        r@ == ascii_lowercase_spec(s@),
{
    let mut r: Vec<char> = Vec::new();
    let n = s.len();
    for i in 0..n
        invariant
            n == s@.len(),
            r@.len() == i,
            forall|j: int| 0 <= j < i ==> r@[j] == ascii_lower_spec(s@[j]),
    {
        r.push(ascii_lower(s[i]));
    }
    assert(r@ =~= ascii_lowercase_spec(s@));
    r
}

/// Name for the result of `str::to_lowercase`: the full Unicode lowercase
/// mapping of a string.
pub uninterp spec fn unicode_lowercase(s: Seq<char>) -> Seq<char>;

/// `str::to_lowercase`: the Unicode lowercase form of `s`. The mapping is
/// Unicode's, so the contract names it: the result is `unicode_lowercase`
/// of the argument. Of ASCII text it states what the mapping does there:
/// `A`-`Z` become `a`-`z`, every other ASCII character stays.
#[verifier::external_body]
pub(crate) fn to_lowercase(s: &str) -> (r: String)
    ensures
        r@ == unicode_lowercase(s@),
        (forall|i: int| 0 <= i < s@.len() ==> (#[trigger] s@[i] as u32) < 128) ==> r@
            == ascii_lowercase_spec(s@),
{
    s.to_lowercase()
}

/// Name for the result of `char::is_alphanumeric`: whether a character is
/// Unicode `Alphabetic` or `Numeric`.
pub uninterp spec fn unicode_alphanumeric(c: char) -> bool;

/// `char::is_alphanumeric`. The Unicode tables behind it are not restated:
/// the result is named `unicode_alphanumeric` of the argument. Of ASCII it
/// states what the tables say there: letters and digits are alphanumeric,
/// every other ASCII character is not.
#[verifier::external_body]
pub(crate) fn is_alphanumeric(c: char) -> (r: bool)
    ensures
        r == unicode_alphanumeric(c),
        (c as u32) < 128 ==> (r <==> (('a' <= c && c <= 'z') || ('A' <= c && c <= 'Z') || ('0' <= c
            && c <= '9'))),
{
    c.is_alphanumeric()
}

// ---------------------------------------------------------------------------
// Trimming and filtering
// ---------------------------------------------------------------------------

/// `s` without its leading `White_Space` characters.
pub open spec fn trim_start_spec(s: Seq<char>) -> Seq<char>
    decreases s.len(),
{
    if s.len() > 0 && is_whitespace_spec(s[0]) {
        trim_start_spec(s.drop_first())
    } else {
        s
    }
}

/// `s` without its trailing `White_Space` characters.
pub open spec fn trim_end_spec(s: Seq<char>) -> Seq<char>
    decreases s.len(),
{
    if s.len() > 0 && is_whitespace_spec(s.last()) {
        trim_end_spec(s.drop_last())
    } else {
        s
    }
}

/// `s` without leading and trailing `White_Space` (what `str::trim` returns).
pub open spec fn trim_spec(s: Seq<char>) -> Seq<char> {
    trim_end_spec(trim_start_spec(s))
}

/// Index of the first character of `s` that `trim_start` keeps.
pub fn trim_start_index(s: &[char]) -> (i: usize)
    ensures
        i <= s@.len(),
        trim_start_spec(s@) == s@.subrange(i as int, s@.len() as int),
{
    let n = s.len();
    let mut i: usize = 0;
    assert(s@.subrange(0, n as int) =~= s@);
    while i < n && is_whitespace(s[i])
        invariant
            n == s@.len(),
            i <= n,
            trim_start_spec(s@) == trim_start_spec(s@.subrange(i as int, n as int)),
        decreases n - i,
    {
        proof {
            assert(s@.subrange(i as int, n as int).drop_first() =~= s@.subrange(
                i + 1,
                n as int,
            ));
        }
        i = i + 1;
    }
    i
}

/// The bounds `[a, b)` of what `str::trim` keeps of `s`.
pub fn trim_bounds(s: &[char]) -> (r: (usize, usize))
    ensures
        r.0 <= r.1 <= s@.len(),
        trim_spec(s@) == s@.subrange(r.0 as int, r.1 as int),
{
    let a = trim_start_index(s);
    let mut b = s.len();
    while b > a && is_whitespace(s[b - 1])
        invariant
            a <= b <= s@.len(),
            trim_start_spec(s@) == s@.subrange(a as int, s@.len() as int),
            trim_spec(s@) == trim_end_spec(s@.subrange(a as int, b as int)),
        decreases b,
    {
        proof {
            assert(s@.subrange(a as int, b as int).drop_last() =~= s@.subrange(
                a as int,
                b - 1,
            ));
        }
        b = b - 1;
    }
    (a, b)
}

/// Copy of `s[a..b]`.
pub fn copy_range(s: &[char], a: usize, b: usize) -> (r: Vec<char>)
    requires
        a <= b <= s@.len(),
    ensures
        r@ == s@.subrange(a as int, b as int),
{
    let mut r: Vec<char> = Vec::new();
    let mut i = a;
    while i < b
        invariant
            a <= i <= b <= s@.len(),
            r@ == s@.subrange(a as int, i as int),
        decreases b - i,
    {
        r.push(s[i]);
        proof {
            assert(s@.subrange(a as int, i + 1) =~= s@.subrange(a as int, i as int).push(
                s@[i as int],
            ));
        }
        i = i + 1;
    }
    r
}

/// What `str::trim` returns, as characters.
pub fn trim(s: &[char]) -> (r: Vec<char>)
    ensures
        r@ == trim_spec(s@),
{
    let (a, b) = trim_bounds(s);
    copy_range(s, a, b)
}

/// What `str::trim_start` returns, as characters.
pub fn trim_start(s: &[char]) -> (r: Vec<char>)
    ensures
        r@ == trim_start_spec(s@),
{
    let a = trim_start_index(s);
    copy_range(s, a, s.len())
}

/// `s` with every control character removed.
pub open spec fn without_controls(s: Seq<char>) -> Seq<char> {
    s.filter(|c: char| !is_control_spec(c))
}

/// Copy of `s` without its control characters.
pub fn remove_controls(s: &[char]) -> (r: Vec<char>)
    ensures
        r@ == without_controls(s@),
{
    let mut r: Vec<char> = Vec::new();
    let n = s.len();
    for i in 0..n
        invariant
            n == s@.len(),
            r@ == without_controls(s@.take(i as int)),
    {
        proof {
            assert(s@.take(i + 1).drop_last() =~= s@.take(i as int));
            reveal_with_fuel(Seq::filter, 1);
        }
        if !is_control(s[i]) {
            r.push(s[i]);
        }
    }
    proof {
        assert(s@.take(n as int) =~= s@);
    }
    r
}


// ---------------------------------------------------------------------------
// Searching
// ---------------------------------------------------------------------------

/// `pat` occurs in `s` starting at index `i`.
pub open spec fn matches_at(s: Seq<char>, pat: Seq<char>, i: int) -> bool {
    0 <= i && i + pat.len() <= s.len() && s.subrange(i, i + pat.len()) == pat
}

/// `pat` occurs somewhere in `s` (what `str::contains` tests).
pub open spec fn contains_spec(s: Seq<char>, pat: Seq<char>) -> bool {
    exists|i: int| matches_at(s, pat, i)
}

/// `s` begins with `pat`.
pub open spec fn starts_with_spec(s: Seq<char>, pat: Seq<char>) -> bool {
    matches_at(s, pat, 0)
}

/// The last index at or below `i` where `pat` occurs in `s`.
pub open spec fn rfind_from(s: Seq<char>, pat: Seq<char>, i: int) -> Option<int>
    decreases i + 1,
{
    if i < 0 {
        None
    } else if matches_at(s, pat, i) {
        Some(i)
    } else {
        rfind_from(s, pat, i - 1)
    }
}

/// Start of the last occurrence of `pat` in `s` (what `str::rfind` finds).
pub open spec fn rfind_spec(s: Seq<char>, pat: Seq<char>) -> Option<int> {
    rfind_from(s, pat, s.len() - pat.len())
}

/// The first index at or above `i` holding `c`.
pub open spec fn find_char_from(s: Seq<char>, c: char, i: int) -> Option<int>
    decreases s.len() - i,
{
    if i < 0 || i >= s.len() {
        None
    } else if s[i] == c {
        Some(i)
    } else {
        find_char_from(s, c, i + 1)
    }
}

/// Index of the first `c` in `s`.
pub open spec fn find_char_spec(s: Seq<char>, c: char) -> Option<int> {
    find_char_from(s, c, 0)
}

proof fn lemma_find_char_from_none(s: Seq<char>, c: char, i: int)
    requires
        0 <= i <= s.len(),
        find_char_from(s, c, i) is None,
    ensures
        forall|j: int| i <= j < s.len() ==> s[j] != c,
    decreases s.len() - i,
{
    if i < s.len() {
        lemma_find_char_from_none(s, c, i + 1);
    }
}

/// A character that `find_char_spec` does not find is nowhere in `s`.
pub proof fn lemma_find_char_none(s: Seq<char>, c: char)
    requires
        find_char_spec(s, c) is None,
    ensures
        !s.contains(c),
{
    lemma_find_char_from_none(s, c, 0);
}

/// The last index at or below `i` holding `c`.
pub open spec fn rfind_char_from(s: Seq<char>, c: char, i: int) -> Option<int>
    decreases i + 1,
{
    if i < 0 || i >= s.len() {
        None
    } else if s[i] == c {
        Some(i)
    } else {
        rfind_char_from(s, c, i - 1)
    }
}

/// Index of the last `c` in `s`.
pub open spec fn rfind_char_spec(s: Seq<char>, c: char) -> Option<int> {
    rfind_char_from(s, c, s.len() - 1)
}

/// Whether `pat` occurs in `s` at index `i`.
pub fn matches_at_exec(s: &[char], pat: &[char], i: usize) -> (r: bool)
    ensures
        r == matches_at(s@, pat@, i as int),
{
    if i > s.len() || pat.len() > s.len() - i {
        return false;
    }
    let m = pat.len();
    for j in 0..m
        invariant
            m == pat@.len(),
            i + m <= s@.len(),
            s@.len() == s.len(),
            forall|k: int| 0 <= k < j ==> s@[i + k] == pat@[k],
    {
        if s[i + j] != pat[j] {
            proof {
                assert(s@.subrange(i as int, i + m)[j as int] != pat@[j as int]);
            }
            return false;
        }
    }
    assert(s@.subrange(i as int, i + m) =~= pat@);
    true
}

/// Whether `s` begins with `pat`.
pub fn starts_with(s: &[char], pat: &[char]) -> (r: bool)
    ensures
        r == starts_with_spec(s@, pat@),
{
    matches_at_exec(s, pat, 0)
}

/// Start of the last occurrence of `pat` in `s`.
pub fn rfind(s: &[char], pat: &[char]) -> (r: Option<usize>)
    ensures
        r matches Some(i) ==> rfind_spec(s@, pat@) == Some(i as int),
        r is None ==> rfind_spec(s@, pat@) is None,
{
    if pat.len() > s.len() {
        proof {
            assert(rfind_from(s@, pat@, s@.len() - pat@.len()) is None);
        }
        return None;
    }
    let mut i: usize = s.len() - pat.len();
    loop
        invariant
            i <= s@.len() - pat@.len(),
            pat@.len() <= s@.len(),
            rfind_spec(s@, pat@) == rfind_from(s@, pat@, i as int),
        decreases i,
    {
        if matches_at_exec(s, pat, i) {
            return Some(i);
        }
        if i == 0 {
            proof {
                assert(rfind_from(s@, pat@, -1) is None);
            }
            return None;
        }
        i = i - 1;
    }
}

/// Whether `pat` occurs anywhere in `s`.
pub fn contains(s: &[char], pat: &[char]) -> (r: bool)
    ensures
        r == contains_spec(s@, pat@),
{
    if pat.len() > s.len() {
        return false;
    }
    let last = s.len() - pat.len();
    let mut i: usize = 0;
    loop
        invariant
            last == s@.len() - pat@.len(),
            i <= last,
            forall|k: int| 0 <= k < i ==> !matches_at(s@, pat@, k),
        decreases last - i,
    {
        if matches_at_exec(s, pat, i) {
            return true;
        }
        if i == last {
            return false;
        }
        i = i + 1;
    }
}

/// Index of the first `c` in `s`.
pub fn find_char(s: &[char], c: char) -> (r: Option<usize>)
    ensures
        r matches Some(i) ==> find_char_spec(s@, c) == Some(i as int) && i < s@.len() && s@[i as int]
            == c,
        r is None ==> find_char_spec(s@, c) is None,
{
    let n = s.len();
    let mut i: usize = 0;
    while i < n
        invariant
            n == s@.len(),
            i <= n,
            find_char_spec(s@, c) == find_char_from(s@, c, i as int),
        decreases n - i,
    {
        if s[i] == c {
            return Some(i);
        }
        i = i + 1;
    }
    None
}

/// Index of the last `c` in `s`.
pub fn rfind_char(s: &[char], c: char) -> (r: Option<usize>)
    ensures
        r matches Some(i) ==> rfind_char_spec(s@, c) == Some(i as int),
        r is None ==> rfind_char_spec(s@, c) is None,
{
    let mut i: usize = s.len();
    while i > 0
        invariant
            i <= s@.len(),
            rfind_char_spec(s@, c) == rfind_char_from(s@, c, i - 1),
        decreases i,
    {
        if s[i - 1] == c {
            return Some(i - 1);
        }
        i = i - 1;
    }
    None
}

/// The pieces of `s` between occurrences of `sep` (what `str::split` with a
/// `char` separator yields: one more piece than there are separators).
pub open spec fn split_spec(s: Seq<char>, sep: char) -> Seq<Seq<char>>
    decreases s.len(),
{
    match find_char_spec(s, sep) {
        Some(i) => if 0 <= i < s.len() {
            seq![s.take(i)] + split_spec(s.skip(i + 1), sep)
        } else {
            seq![s]
        },
        None => seq![s],
    }
}


/// The views of a sequence of character vectors.
pub open spec fn views(v: Seq<Vec<char>>) -> Seq<Seq<char>> {
    v.map_values(|x: Vec<char>| x@)
}

/// The pieces of `s` between occurrences of `sep`, as `str::split` yields them.
pub fn split(s: &[char], sep: char) -> (r: Vec<Vec<char>>)
    ensures
        views(r@) == split_spec(s@, sep),
{
    let n = s.len();
    let mut r: Vec<Vec<char>> = Vec::new();
    let mut start: usize = 0;
    assert(s@.skip(0) =~= s@);
    loop
        invariant
            n == s@.len(),
            start <= n,
            views(r@) + split_spec(s@.skip(start as int), sep) == split_spec(s@, sep),
        decreases n - start,
    {
        let rest = &s[start..n];
        assert(rest@ =~= s@.skip(start as int));
        match find_char(rest, sep) {
            Some(i) => {
                let piece = copy_range(s, start, start + i);
                proof {
                    assert(piece@ =~= rest@.take(i as int));
                    assert(rest@.skip(i + 1) =~= s@.skip(start + i + 1));
                    assert(views(r@.push(piece)) =~= views(r@).push(piece@));
                    assert(views(r@) + split_spec(rest@, sep) =~= views(r@).push(piece@)
                        + split_spec(s@.skip(start + i + 1), sep));
                }
                r.push(piece);
                start = start + i + 1;
            },
            None => {
                let piece = copy_range(s, start, n);
                proof {
                    assert(piece@ =~= rest@);
                    assert(views(r@.push(piece)) =~= views(r@).push(piece@));
                    assert(views(r@) + split_spec(rest@, sep) =~= views(r@).push(piece@));
                }
                r.push(piece);
                return r;
            },
        }
    }
}

// ---------------------------------------------------------------------------
// Unsigned integer parsing (`from_str_radix` for unsigned types)
// ---------------------------------------------------------------------------

/// Value of a digit in the given radix (10 or 16), if it is one.
pub open spec fn digit_spec(c: char, radix: nat) -> Option<nat> {
    if '0' <= c && c <= '9' && (c as u32) - 0x30 < radix {
        Some(((c as u32) - 0x30) as nat)
    } else if radix == 16 && 'a' <= c && c <= 'f' {
        Some(((c as u32) - 0x61 + 10) as nat)
    } else if radix == 16 && 'A' <= c && c <= 'F' {
        Some(((c as u32) - 0x41 + 10) as nat)
    } else {
        None
    }
}

/// Every character of `s` is a digit in `radix`.
pub open spec fn all_digits(s: Seq<char>, radix: nat) -> bool {
    forall|i: int| 0 <= i < s.len() ==> (#[trigger] digit_spec(s[i], radix)) is Some
}

/// The number the digits of `s` spell, most significant first.
pub open spec fn digits_value(s: Seq<char>, radix: nat) -> nat
    decreases s.len(),
{
    if s.len() == 0 {
        0
    } else {
        digits_value(s.drop_last(), radix) * radix + digit_spec(s.last(), radix).unwrap_or(0)
    }
}

/// What `from_str_radix` accepts for an unsigned type, before the range
/// check: an optional leading `+` and then at least one digit.
pub open spec fn parse_unsigned_spec(s: Seq<char>, radix: nat) -> Option<nat> {
    let d = if s.len() > 0 && s[0] == '+' {
        s.drop_first()
    } else {
        s
    };
    if d.len() > 0 && all_digits(d, radix) {
        Some(digits_value(d, radix))
    } else {
        None
    }
}

/// `from_str_radix` for an unsigned type whose largest value is `max`.
pub open spec fn parse_bounded_spec(s: Seq<char>, radix: nat, max: nat) -> Option<nat> {
    match parse_unsigned_spec(s, radix) {
        Some(v) => if v <= max {
            Some(v)
        } else {
            None
        },
        None => None,
    }
}

proof fn lemma_digit_step(d: Seq<char>, k: int, radix: nat, v: nat)
    requires
        0 <= k < d.len(),
        all_digits(d.take(k), radix),
        digit_spec(d[k], radix) == Some(v),
    ensures
        all_digits(d.take(k + 1), radix),
        digits_value(d.take(k + 1), radix) == digits_value(d.take(k), radix) * radix + v,
{
    assert(d.take(k + 1).drop_last() =~= d.take(k));
    assert forall|j: int| 0 <= j < d.take(k + 1).len() implies (#[trigger] digit_spec(
        d.take(k + 1)[j],
        radix,
    )) is Some by {
        if j < k {
            assert(d.take(k + 1)[j] == d.take(k)[j]);
        }
    }
}

proof fn lemma_digits_value_grows(s: Seq<char>, radix: nat, k: int)
    requires
        radix >= 1,
        0 <= k <= s.len(),
    ensures
        digits_value(s.take(k), radix) <= digits_value(s, radix),
    decreases s.len(),
{
    if k < s.len() {
        assert(s.drop_last().take(k) =~= s.take(k));
        lemma_digits_value_grows(s.drop_last(), radix, k);
        let a = digits_value(s.drop_last(), radix);
        assert(a * radix >= a) by (nonlinear_arith)
            requires
                radix >= 1,
        ;
    } else {
        assert(s.take(k) =~= s);
    }
}

/// Parses `s` as an unsigned number in `radix` (10 or 16) no larger than
/// `max`, as `from_str_radix` does for an unsigned type of that range.
pub fn parse_bounded(s: &[char], radix: u32, max: u64) -> (r: Option<u64>)
    requires
        radix == 10 || radix == 16,
        max <= u32::MAX,
    ensures
        r matches Some(v) ==> parse_bounded_spec(s@, radix as nat, max as nat) == Some(v as nat),
        r is None ==> parse_bounded_spec(s@, radix as nat, max as nat) is None,
{
    let n = s.len();
    let start: usize = if n > 0 && s[0] == '+' {
        1
    } else {
        0
    };
    let ghost d = if s@.len() > 0 && s@[0] == '+' {
        s@.drop_first()
    } else {
        s@
    };
    assert(d =~= s@.skip(start as int));
    if start == n {
        return None;
    }
    let mut acc: u64 = 0;
    let mut i = start;
    while i < n
        invariant
            n == s@.len(),
            start < n,
            start <= i <= n,
            d == s@.skip(start as int),
            d == (if s@.len() > 0 && s@[0] == '+' {
                s@.drop_first()
            } else {
                s@
            }),
            radix == 10 || radix == 16,
            max <= u32::MAX,
            acc <= max,
            all_digits(d.take(i - start), radix as nat),
            acc == digits_value(d.take(i - start), radix as nat),
        decreases n - i,
    {
        let c = s[i];
        let dv: u32 = if '0' <= c && c <= '9' && (c as u32) - 0x30 < radix {
            (c as u32) - 0x30
        } else if radix == 16 && 'a' <= c && c <= 'f' {
            (c as u32) - 0x61 + 10
        } else if radix == 16 && 'A' <= c && c <= 'F' {
            (c as u32) - 0x41 + 10
        } else {
            proof {
                assert(d[i - start] == c);
                assert(digit_spec(c, radix as nat) is None);
                assert(!all_digits(d, radix as nat));
                assert(parse_unsigned_spec(s@, radix as nat) is None);
            }
            return None;
        };
        proof {
            assert(d[i - start] == c);
            lemma_digit_step(d, i - start, radix as nat, dv as nat);
            assert(acc * (radix as nat) <= (u32::MAX as nat) * 16) by (nonlinear_arith)
                requires
                    acc <= u32::MAX,
                    radix <= 16,
            ;
        }
        let next = acc * (radix as u64) + (dv as u64);
        proof {
            assert(digits_value(d.take(i - start + 1), radix as nat) == next);
        }
        if next > max {
            proof {
                if all_digits(d, radix as nat) {
                    lemma_digits_value_grows(d, radix as nat, i - start + 1);
                    assert(parse_unsigned_spec(s@, radix as nat) == Some(
                        digits_value(d, radix as nat),
                    ));
                }
            }
            return None;
        }
        acc = next;
        i = i + 1;
    }
    proof {
        assert(d.take(i - start) =~= d);
    }
    Some(acc)
}

/// `u16::from_str_radix`.
pub fn parse_u16(s: &[char], radix: u32) -> (r: Option<u16>)
    requires
        radix == 10 || radix == 16,
    ensures
        r matches Some(v) ==> parse_bounded_spec(s@, radix as nat, 0xffff) == Some(v as nat),
        r is None ==> parse_bounded_spec(s@, radix as nat, 0xffff) is None,
{
    match parse_bounded(s, radix, 0xffff) {
        Some(v) => Some(v as u16),
        None => None,
    }
}

/// `u8::from_str_radix`.
pub fn parse_u8(s: &[char], radix: u32) -> (r: Option<u8>)
    requires
        radix == 10 || radix == 16,
    ensures
        r matches Some(v) ==> parse_bounded_spec(s@, radix as nat, 0xff) == Some(v as nat),
        r is None ==> parse_bounded_spec(s@, radix as nat, 0xff) is None,
{
    match parse_bounded(s, radix, 0xff) {
        Some(v) => Some(v as u8),
        None => None,
    }
}

/// `u32::from_str_radix`.
pub fn parse_u32(s: &[char], radix: u32) -> (r: Option<u32>)
    requires
        radix == 10 || radix == 16,
    ensures
        r matches Some(v) ==> parse_bounded_spec(s@, radix as nat, 0xffff_ffff) == Some(v as nat),
        r is None ==> parse_bounded_spec(s@, radix as nat, 0xffff_ffff) is None,
{
    match parse_bounded(s, radix, 0xffff_ffff) {
        Some(v) => Some(v as u32),
        None => None,
    }
}

// ---------------------------------------------------------------------------
// Number formatting (`{:x}` and `{}` with zero or space padding)
// ---------------------------------------------------------------------------

/// The lowercase hex digit for `d < 16`.
pub open spec fn hex_char_spec(d: nat) -> char {
    if d < 10 {
        (0x30 + d) as char
    } else {
        (0x61 + d - 10) as char
    }
}

/// The decimal digit for `d < 10`.
pub open spec fn dec_char_spec(d: nat) -> char {
    (0x30 + d) as char
}

/// The last `width` lowercase hex digits of `v` (`{:0width$x}` for a value
/// that fits in `width` digits).
pub open spec fn hex_fixed_spec(v: nat, width: nat) -> Seq<char>
    decreases width,
{
    if width == 0 {
        seq![]
    } else {
        hex_fixed_spec(v / 16, (width - 1) as nat).push(hex_char_spec(v % 16))
    }
}

/// The decimal representation of `v` without leading zeros (`{}`).
pub open spec fn dec_spec(v: nat) -> Seq<char>
    decreases v,
{
    if v < 10 {
        seq![dec_char_spec(v)]
    } else {
        dec_spec(v / 10).push(dec_char_spec(v % 10))
    }
}

/// Reading back the decimal form of a number gives the number: its digits
/// are decimal digits, there is at least one, and they spell `n`.
pub proof fn lemma_dec_spec_reads_back(n: nat)
    ensures
        dec_spec(n).len() > 0,
        all_digits(dec_spec(n), 10),
        digits_value(dec_spec(n), 10) == n,
        parse_unsigned_spec(dec_spec(n), 10) == Some(n),
    decreases n,
{
    let s = dec_spec(n);
    if n < 10 {
        let c = dec_char_spec(n);
        assert(c as u32 == 0x30 + n);
        assert(digit_spec(c, 10) == Some(n));
        assert(s.drop_last() =~= Seq::<char>::empty());
        assert(digits_value(s.drop_last(), 10) == 0);
        assert(all_digits(s, 10));
    } else {
        lemma_dec_spec_reads_back(n / 10);
        let p = dec_spec(n / 10);
        let c = dec_char_spec(n % 10);
        assert(c as u32 == 0x30 + n % 10);
        assert(digit_spec(c, 10) == Some(n % 10));
        assert(s.drop_last() =~= p);
        assert(s.last() == c);
        assert(digits_value(s, 10) == (n / 10) * 10 + n % 10);
        assert forall|i: int| 0 <= i < s.len() implies (#[trigger] digit_spec(s[i], 10)) is Some by {
            if i < p.len() {
                assert(s[i] == p[i]);
            }
        }
    }
    assert(s[0] != '+') by {
        assert(digit_spec(s[0], 10) is Some);
    }
}

/// `s` padded on the left with `fill` to at least `width` characters.
pub open spec fn pad_left_spec(s: Seq<char>, width: nat, fill: char) -> Seq<char> {
    if s.len() >= width {
        s
    } else {
        Seq::new((width - s.len()) as nat, |i: int| fill) + s
    }
}

/// `{:0width$x}` of `v`.
pub fn hex_fixed(v: u64, width: usize) -> (r: Vec<char>)
    ensures
        r@ == hex_fixed_spec(v as nat, width as nat),
    decreases width,
{
    if width == 0 {
        Vec::new()
    } else {
        let mut r = hex_fixed(v / 16, width - 1);
        let d = v % 16;
        let c = if d < 10 {
            ((0x30 + d) as u8) as char
        } else {
            ((0x61 + d - 10) as u8) as char
        };
        r.push(c);
        r
    }
}

/// `{}` of `v`.
pub fn dec(v: u64) -> (r: Vec<char>)
    ensures
        r@ == dec_spec(v as nat),
    decreases v,
{
    if v < 10 {
        let mut r: Vec<char> = Vec::new();
        r.push(((0x30 + v) as u8) as char);
        r
    } else {
        let mut r = dec(v / 10);
        r.push(((0x30 + v % 10) as u8) as char);
        r
    }
}

/// `s` padded on the left with `fill` to at least `width` characters.
pub fn pad_left(s: &[char], width: usize, fill: char) -> (r: Vec<char>)
    ensures
        r@ == pad_left_spec(s@, width as nat, fill),
{
    if s.len() >= width {
        return copy_range(s, 0, s.len());
    }
    let k = width - s.len();
    let mut r: Vec<char> = Vec::new();
    for i in 0..k
        invariant
            r@ == Seq::new(i as nat, |j: int| fill),
    {
        r.push(fill);
        assert(r@ =~= Seq::new((i + 1) as nat, |j: int| fill));
    }
    let n = s.len();
    for i in 0..n
        invariant
            n == s@.len(),
            r@ == Seq::new(k as nat, |j: int| fill) + s@.take(i as int),
    {
        r.push(s[i]);
        assert(s@.take(i + 1) =~= s@.take(i as int).push(s@[i as int]));
        assert(r@ =~= Seq::new(k as nat, |j: int| fill) + s@.take(i + 1));
    }
    assert(s@.take(n as int) =~= s@);
    r
}

/// Concatenation of two character slices.
pub fn concat(a: &[char], b: &[char]) -> (r: Vec<char>)
    ensures
        r@ == a@ + b@,
{
    let mut r = copy_range(a, 0, a.len());
    assert(a@.subrange(0, a@.len() as int) =~= a@);
    let n = b.len();
    for i in 0..n
        invariant
            n == b@.len(),
            r@ == a@ + b@.take(i as int),
    {
        r.push(b[i]);
        assert(b@.take(i + 1) =~= b@.take(i as int).push(b@[i as int]));
        assert(r@ =~= a@ + b@.take(i + 1));
    }
    assert(b@.take(n as int) =~= b@);
    r
}


// ---------------------------------------------------------------------------
// Lines
// ---------------------------------------------------------------------------

/// `s` without one trailing carriage return.
pub open spec fn strip_cr(s: Seq<char>) -> Seq<char> {
    if s.len() > 0 && s.last() == '\r' {
        s.drop_last()
    } else {
        s
    }
}

/// The lines of `s` as `str::lines` yields them: split after each '\n',
/// with the "\n" or "\r\n" ending removed; a final line ending is optional.
pub open spec fn lines_spec(s: Seq<char>) -> Seq<Seq<char>>
    decreases s.len(),
{
    if s.len() == 0 {
        seq![]
    } else {
        match find_char_spec(s, '\n') {
            Some(i) => if 0 <= i < s.len() {
                seq![strip_cr(s.take(i))] + lines_spec(s.skip(i + 1))
            } else {
                seq![s]
            },
            None => seq![s],
        }
    }
}

/// The lines of `s`, as `str::lines` yields them.
pub fn lines(s: &[char]) -> (r: Vec<Vec<char>>)
    ensures
        views(r@) == lines_spec(s@),
{
    let n = s.len();
    let mut r: Vec<Vec<char>> = Vec::new();
    let mut start: usize = 0;
    assert(s@.skip(0) =~= s@);
    while start < n
        invariant
            n == s@.len(),
            start <= n,
            views(r@) + lines_spec(s@.skip(start as int)) == lines_spec(s@),
        decreases n - start,
    {
        let rest = &s[start..n];
        assert(rest@ =~= s@.skip(start as int));
        match find_char(rest, '\n') {
            Some(i) => {
                let end = if i > 0 && s[start + i - 1] == '\r' {
                    start + i - 1
                } else {
                    start + i
                };
                let piece = copy_range(s, start, end);
                proof {
                    assert(piece@ =~= strip_cr(rest@.take(i as int)));
                    assert(rest@.skip(i + 1) =~= s@.skip(start + i + 1));
                    assert(views(r@.push(piece)) =~= views(r@).push(piece@));
                    assert(views(r@) + lines_spec(rest@) =~= views(r@).push(piece@) + lines_spec(
                        s@.skip(start + i + 1),
                    ));
                }
                r.push(piece);
                start = start + i + 1;
            },
            None => {
                let piece = copy_range(s, start, n);
                proof {
                    assert(piece@ =~= rest@);
                    assert(views(r@.push(piece)) =~= views(r@).push(piece@));
                    assert(views(r@) + lines_spec(rest@) =~= views(r@).push(piece@));
                }
                r.push(piece);
                return r;
            },
        }
    }
    proof {
        assert(s@.skip(start as int).len() == 0);
        assert(views(r@) + lines_spec(s@.skip(start as int)) =~= views(r@));
    }
    r
}


// ---------------------------------------------------------------------------
// Decimal digits
// ---------------------------------------------------------------------------

/// Every character of `s` is a decimal digit.
pub open spec fn all_decimal(s: Seq<char>) -> bool {
    all_digits(s, 10)
}

/// `10` to the power `n`.
pub open spec fn pow10(n: nat) -> nat
    decreases n,
{
    if n == 0 {
        1
    } else {
        10 * pow10((n - 1) as nat)
    }
}

/// Whether every character of `s` is a decimal digit.
pub fn all_decimal_exec(s: &[char]) -> (r: bool)
    ensures
        r == all_decimal(s@),
{
    let n = s.len();
    for j in 0..n
        invariant
            n == s@.len(),
            forall|k: int| 0 <= k < j ==> (#[trigger] digit_spec(s@[k], 10)) is Some,
    {
        if !('0' <= s[j] && s[j] <= '9') {
            proof {
                assert(digit_spec(s@[j as int], 10) is None);
            }
            return false;
        }
    }
    true
}

// ---------------------------------------------------------------------------
// Real numbers in decimal notation
// ---------------------------------------------------------------------------

/// A real number as written: not a number, an infinity, or a finite value
/// given by its decimal digits and the position of the decimal point among
/// them (the digits read as a whole number, times ten to the power of
/// `point` minus the number of digits).
pub enum RealText {
    NotANumber,
    Infinite { negative: bool },
    Finite { negative: bool, digits: Seq<char>, point: int },
}

/// The first index at or above `i` holding an exponent mark ('e' or 'E').
pub open spec fn exp_mark_from(s: Seq<char>, i: int) -> Option<int>
    decreases s.len() - i,
{
    if i < 0 || i >= s.len() {
        None
    } else if s[i] == 'e' || s[i] == 'E' {
        Some(i)
    } else {
        exp_mark_from(s, i + 1)
    }
}

/// An exponent: an optional sign and at least one decimal digit.
pub open spec fn exponent_spec(x: Seq<char>) -> Option<int> {
    let negative = x.len() > 0 && x[0] == '-';
    let d = if x.len() > 0 && (x[0] == '-' || x[0] == '+') {
        x.drop_first()
    } else {
        x
    };
    if d.len() > 0 && all_decimal(d) {
        Some(
            if negative {
                -(digits_value(d, 10) as int)
            } else {
                digits_value(d, 10) as int
            },
        )
    } else {
        None
    }
}

/// What `str::parse` reads for a real-valued number type: an optional
/// sign, then either "inf", "infinity" or "nan" in any letter case, or
/// digits with an optional decimal point (at least one digit on either
/// side of it) and an optional exponent ('e' or 'E', an optional sign,
/// digits). Nothing else, no blanks, may stand in the text.
pub open spec fn real_text_spec(s: Seq<char>) -> Option<RealText> {
    let negative = s.len() > 0 && s[0] == '-';
    let b = if s.len() > 0 && (s[0] == '+' || s[0] == '-') {
        s.drop_first()
    } else {
        s
    };
    if eq_ignore_ascii_case_spec(b, seq!['i', 'n', 'f']) || eq_ignore_ascii_case_spec(
        b,
        seq!['i', 'n', 'f', 'i', 'n', 'i', 't', 'y'],
    ) {
        Some(RealText::Infinite { negative })
    } else if eq_ignore_ascii_case_spec(b, seq!['n', 'a', 'n']) {
        Some(RealText::NotANumber)
    } else {
        match number_spec(b) {
            Some((digits, point)) => Some(RealText::Finite { negative, digits, point }),
            None => None,
        }
    }
}

/// The mantissa and the exponent of an unsigned number: split at the first
/// exponent mark; no mark means exponent 0.
pub open spec fn exp_parts(b: Seq<char>) -> (Seq<char>, Option<int>) {
    match exp_mark_from(b, 0) {
        Some(i) => (b.take(i), exponent_spec(b.skip(i + 1))),
        None => (b, Some(0int)),
    }
}

/// The digits before and after the decimal point of a mantissa.
pub open spec fn mantissa_parts(m: Seq<char>) -> (Seq<char>, Seq<char>) {
    match find_char_spec(m, '.') {
        Some(i) => (m.take(i), m.skip(i + 1)),
        None => (m, Seq::<char>::empty()),
    }
}

/// An unsigned finite number: its digits and the position of the point.
pub open spec fn number_spec(b: Seq<char>) -> Option<(Seq<char>, int)> {
    let (m, e) = exp_parts(b);
    let (ip, fp) = mantissa_parts(m);
    if ip.len() + fp.len() > 0 && all_decimal(ip) && all_decimal(fp) && e is Some {
        Some((ip + fp, ip.len() + e->0))
    } else {
        None
    }
}

/// Digits with the decimal point after the first `point` of them (before
/// the first digit when `point` is not positive), rounded up to a whole
/// number.
pub open spec fn ceil_at_point(digits: Seq<char>, point: int) -> nat {
    if point <= 0 {
        if digits_value(digits, 10) > 0 {
            1
        } else {
            0
        }
    } else if point >= digits.len() {
        digits_value(digits, 10) * pow10((point - digits.len()) as nat)
    } else {
        digits_value(digits.take(point), 10) + if digits_value(digits.skip(point), 10) > 0 {
            1nat
        } else {
            0nat
        }
    }
}

/// `v`, or the largest `u64` when `v` is larger.
pub open spec fn saturate(v: nat) -> nat {
    if v > u64::MAX {
        u64::MAX as nat
    } else {
        v
    }
}

/// A real number times ten to the power `scale`, as a `u64`: rounded up to
/// a whole number (so no positive value becomes zero), and the largest `u64`
/// where it is larger. Not-a-number and positive infinity give the largest
/// `u64`; a negative value, negative infinity included, gives 0, which a
/// speed reads as "unknown" as it reads any value not above zero.
pub open spec fn scaled_ceil(r: RealText, scale: nat) -> nat {
    match r {
        RealText::NotANumber => u64::MAX as nat,
        RealText::Infinite { negative } => if negative {
            0
        } else {
            u64::MAX as nat
        },
        RealText::Finite { negative, digits, point } => {
            let v = ceil_at_point(digits, point + scale);
            if negative {
                0
            } else {
                saturate(v)
            }
        },
    }
}

proof fn lemma_all_decimal_parts(s: Seq<char>, k: int)
    requires
        all_decimal(s),
        0 <= k <= s.len(),
    ensures
        all_decimal(s.take(k)),
        all_decimal(s.skip(k)),
        s.len() > 0 ==> all_decimal(s.drop_last()),
{
    assert forall|i: int| 0 <= i < s.take(k).len() implies (#[trigger] digit_spec(s.take(k)[i], 10)) is Some by {
        assert(s.take(k)[i] == s[i]);
    }
    assert forall|i: int| 0 <= i < s.skip(k).len() implies (#[trigger] digit_spec(s.skip(k)[i], 10)) is Some by {
        assert(s.skip(k)[i] == s[i + k]);
    }
    if s.len() > 0 {
        assert forall|i: int| 0 <= i < s.drop_last().len() implies (#[trigger] digit_spec(s.drop_last()[i], 10)) is Some by {
            assert(s.drop_last()[i] == s[i]);
        }
    }
}

/// Decimal digits spell zero exactly when every one of them is '0'.
proof fn lemma_digits_zero(s: Seq<char>)
    requires
        all_decimal(s),
    ensures
        (digits_value(s, 10) == 0) <==> (forall|i: int| 0 <= i < s.len() ==> s[i] == '0'),
    decreases s.len(),
{
    if s.len() > 0 {
        lemma_all_decimal_parts(s, 0);
        lemma_digits_zero(s.drop_last());
        let l = s.last();
        assert(digit_spec(l, 10) is Some);
        assert((digit_spec(l, 10).unwrap_or(0) == 0) <==> l == '0');
        if digits_value(s, 10) == 0 {
            assert(digits_value(s.drop_last(), 10) * 10 + digit_spec(l, 10).unwrap_or(0) == 0);
            assert forall|i: int| 0 <= i < s.len() implies s[i] == '0' by {
                if i < s.len() - 1 {
                    assert(s.drop_last()[i] == s[i]);
                }
            }
        } else {
            if forall|i: int| 0 <= i < s.len() ==> s[i] == '0' {
                assert forall|i: int| 0 <= i < s.drop_last().len() implies s.drop_last()[i] == '0' by {
                    assert(s.drop_last()[i] == s[i]);
                }
                assert(s[s.len() - 1] == '0');
                assert(false);
            }
        }
    }
}

proof fn lemma_pow10_pos(n: nat)
    ensures
        pow10(n) >= 1,
    decreases n,
{
    if n > 0 {
        lemma_pow10_pos((n - 1) as nat);
    }
}

proof fn lemma_pow10_big(n: nat)
    requires
        n >= 20,
    ensures
        pow10(n) > u64::MAX,
    decreases n,
{
    if n == 20 {
        assert(pow10(20) == 100_000_000_000_000_000_000) by {
            reveal_with_fuel(pow10, 21);
        }
    } else {
        lemma_pow10_big((n - 1) as nat);
    }
}

/// Far enough on either side, the position of the point no longer matters
/// once the value is saturated.
proof fn lemma_ceil_regime(d: Seq<char>, p1: int, p2: int)
    requires
        all_decimal(d),
        (p1 <= 0 && p2 <= 0) || (p1 >= d.len() + 20 && p2 >= d.len() + 20),
    ensures
        saturate(ceil_at_point(d, p1)) == saturate(ceil_at_point(d, p2)),
{
    if p1 > 0 {
        let v = digits_value(d, 10);
        assert(ceil_at_point(d, p1) == v * pow10((p1 - d.len()) as nat));
        assert(ceil_at_point(d, p2) == v * pow10((p2 - d.len()) as nat));
        if v == 0 {
            let a = pow10((p1 - d.len()) as nat);
            let b = pow10((p2 - d.len()) as nat);
            assert(v * a == 0 && v * b == 0) by (nonlinear_arith)
                requires
                    v == 0,
            ;
        } else {
            lemma_pow10_big((p1 - d.len()) as nat);
            lemma_pow10_big((p2 - d.len()) as nat);
            let a = pow10((p1 - d.len()) as nat);
            let b = pow10((p2 - d.len()) as nat);
            assert(v * a >= a) by (nonlinear_arith)
                requires
                    v >= 1,
            ;
            assert(v * b >= b) by (nonlinear_arith)
                requires
                    v >= 1,
            ;
        }
    }
}


/// `v`, or `cap` where `v` is larger.
pub open spec fn capped(v: nat, cap: nat) -> nat {
    if v > cap {
        cap
    } else {
        v
    }
}

/// The value of the first `k` decimal digits of `d`, or `cap` where that
/// is larger.
fn capped_digits(d: &[char], k: usize, cap: u128) -> (r: u128)
    requires
        all_decimal(d@),
        k <= d@.len(),
        cap <= 0x1_0000_0000_0000_0000_0000_0000_0000,
    ensures
        r as nat == capped(digits_value(d@.take(k as int), 10), cap as nat),
{
    let mut acc: u128 = 0;
    let mut i: usize = 0;
    assert(d@.take(0) =~= Seq::<char>::empty());
    while i < k
        invariant
            i <= k,
            k <= d@.len(),
            all_decimal(d@),
            cap <= 0x1_0000_0000_0000_0000_0000_0000_0000,
            acc as nat == capped(digits_value(d@.take(i as int), 10), cap as nat),
        decreases k - i,
    {
        let c = d[i];
        proof {
            assert(digit_spec(d@[i as int], 10) is Some);
            lemma_all_decimal_parts(d@, i as int);
        }
        let dv = (c as u32) - 0x30;
        proof {
            lemma_digit_step(d@, i as int, 10, dv as nat);
        }
        let next: u128 = acc * 10 + (dv as u128);
        acc = if next > cap {
            cap
        } else {
            next
        };
        i = i + 1;
    }
    acc
}

/// `x` times ten to the power `t`, saturated, given `v`, which is `x`
/// saturated.
fn saturating_scale(v: u64, t: u64, Ghost(x): Ghost<nat>) -> (r: u64)
    requires
        v as nat == saturate(x),
    ensures
        r as nat == saturate(x * pow10(t as nat)),
{
    let mut r = v;
    let mut i: u64 = 0;
    assert(x * pow10(0) == x) by {
        assert(pow10(0) == 1);
    }
    while i < t
        invariant
            i <= t,
            r as nat == saturate(x * pow10(i as nat)),
        decreases t - i,
    {
        let ghost y = x * pow10(i as nat);
        assert(x * pow10((i + 1) as nat) == y * 10) by {
            assert(pow10((i + 1) as nat) == 10 * pow10(i as nat));
            assert(x * (10 * pow10(i as nat)) == (x * pow10(i as nat)) * 10) by (nonlinear_arith);
        }
        let next: u128 = (r as u128) * 10;
        r = if next > u64::MAX as u128 {
            u64::MAX
        } else {
            next as u64
        };
        i = i + 1;
    }
    r
}

/// Whether any of the characters of `d` from `from` up to `to` is not '0'.
fn any_nonzero(d: &[char], from: usize, to: usize) -> (r: bool)
    requires
        from <= to <= d@.len(),
    ensures
        r == exists|i: int| from <= i < to && d@[i] != '0',
{
    let mut i = from;
    while i < to
        invariant
            from <= i <= to,
            to <= d@.len(),
            forall|j: int| from <= j < i ==> d@[j] == '0',
        decreases to - i,
    {
        if d[i] != '0' {
            return true;
        }
        i = i + 1;
    }
    false
}

/// [`ceil_at_point`], saturated.
fn ceil_exec(d: &[char], point: i128) -> (r: u64)
    requires
        all_decimal(d@),
    ensures
        r as nat == saturate(ceil_at_point(d@, point as int)),
{
    let n = d.len();
    let nz = any_nonzero(d, 0, n);
    proof {
        lemma_digits_zero(d@);
    }
    if !nz {
        proof {
            if point > 0 && point < n {
                let k = point as int;
                lemma_all_decimal_parts(d@, k);
                lemma_digits_zero(d@.take(k));
                lemma_digits_zero(d@.skip(k));
                assert forall|i: int| 0 <= i < d@.take(k).len() implies d@.take(k)[i] == '0' by {
                    assert(d@.take(k)[i] == d@[i]);
                }
                assert forall|i: int| 0 <= i < d@.skip(k).len() implies d@.skip(k)[i] == '0' by {
                    assert(d@.skip(k)[i] == d@[i + k]);
                }
            } else if point >= n {
                let p = pow10((point - n) as nat);
                assert(0 * p == 0);
            }
        }
        return 0;
    }
    if point <= 0 {
        return 1;
    }
    if point >= n as i128 + 20 {
        proof {
            lemma_ceil_regime(d@, point as int, point as int);
            let v = digits_value(d@, 10);
            lemma_pow10_big((point - n) as nat);
            let a = pow10((point - n) as nat);
            assert(v * a >= a) by (nonlinear_arith)
                requires
                    v >= 1,
            ;
        }
        return u64::MAX;
    }
    if point >= n as i128 {
        let v = capped_digits(d, n, u64::MAX as u128);
        assert(d@.take(n as int) =~= d@);
        return saturating_scale(v as u64, (point - n as i128) as u64, Ghost(digits_value(d@, 10)));
    }
    let k = point as usize;
    let a = capped_digits(d, k, u64::MAX as u128);
    let t = any_nonzero(d, k, n);
    proof {
        lemma_all_decimal_parts(d@, k as int);
        lemma_digits_zero(d@.skip(k as int));
        if t {
            let j = choose|j: int| k <= j < n && d@[j] != '0';
            assert(d@.skip(k as int)[j - k] == d@[j]);
        } else {
            assert forall|i: int| 0 <= i < d@.skip(k as int).len() implies d@.skip(k as int)[i] == '0' by {
                assert(d@.skip(k as int)[i] == d@[i + k]);
            }
        }
    }
    if a == u64::MAX as u128 {
        return u64::MAX;
    }
    if t {
        (a as u64) + 1
    } else {
        a as u64
    }
}

/// The largest exponent magnitude kept exactly; larger ones are clamped
/// to it, which changes no result.
pub open spec fn exponent_cap() -> int {
    1_000_000_000_000_000_000_000_000_000_000
}

/// Reads an exponent, clamped to [`exponent_cap`] either way.
fn parse_exponent(x: &[char]) -> (r: Option<i128>)
    ensures
        match r {
            Some(e) => exponent_spec(x@) matches Some(t) && e == (if t > exponent_cap() {
                exponent_cap()
            } else if t < -exponent_cap() {
                -exponent_cap()
            } else {
                t
            }),
            None => exponent_spec(x@) is None,
        },
{
    let n = x.len();
    let negative = n > 0 && x[0] == '-';
    let start: usize = if n > 0 && (x[0] == '-' || x[0] == '+') {
        1
    } else {
        0
    };
    let d = copy_range(x, start, n);
    assert(d@ =~= (if x@.len() > 0 && (x@[0] == '-' || x@[0] == '+') {
        x@.drop_first()
    } else {
        x@
    }));
    if d.len() == 0 || !all_decimal_exec(d.as_slice()) {
        return None;
    }
    let cap: u128 = 1_000_000_000_000_000_000_000_000_000_000;
    let v = capped_digits(d.as_slice(), d.len(), cap);
    assert(d@.take(d@.len() as int) =~= d@);
    let v = v as i128;
    Some(
        if negative {
            -v
        } else {
            v
        },
    )
}

proof fn lemma_exp_mark_range(s: Seq<char>, i: int)
    requires
        0 <= i,
    ensures
        exp_mark_from(s, i) matches Some(k) ==> i <= k < s.len(),
    decreases s.len() - i,
{
    if i < s.len() && !(s[i] == 'e' || s[i] == 'E') {
        lemma_exp_mark_range(s, i + 1);
    }
}

/// Position of the first exponent mark ('e' or 'E') in `s`.
fn find_exp_mark(s: &[char]) -> (r: Option<usize>)
    ensures
        match r {
            Some(i) => exp_mark_from(s@, 0) == Some(i as int) && i < s@.len(),
            None => exp_mark_from(s@, 0) is None,
        },
{
    let n = s.len();
    let mut i: usize = 0;
    while i < n
        invariant
            i <= n,
            n == s@.len(),
            exp_mark_from(s@, 0) == exp_mark_from(s@, i as int),
        decreases n - i,
    {
        if s[i] == 'e' || s[i] == 'E' {
            return Some(i);
        }
        i = i + 1;
    }
    None
}

fn letters(a: char, b: char, c: char) -> (r: Vec<char>)
    ensures
        r@ == seq![a, b, c],
{
    let mut v: Vec<char> = Vec::new();
    v.push(a);
    v.push(b);
    v.push(c);
    assert(v@ =~= seq![a, b, c]);
    v
}

/// The exponent, clamped to [`exponent_cap`] either way.
pub open spec fn clamp_exponent(t: int) -> int {
    if t > exponent_cap() {
        exponent_cap()
    } else if t < -exponent_cap() {
        -exponent_cap()
    } else {
        t
    }
}

fn split_exp(b: &[char]) -> (r: (Vec<char>, Option<i128>))
    ensures
        r.0@ == exp_parts(b@).0,
        match r.1 {
            Some(e) => exp_parts(b@).1 matches Some(t) && e == clamp_exponent(t),
            None => exp_parts(b@).1 is None,
        },
{
    let bl = b.len();
    match find_exp_mark(b) {
        Some(i) => {
            let x = copy_range(b, i + 1, bl);
            assert(x@ =~= b@.skip(i + 1));
            let m = copy_range(b, 0, i);
            assert(m@ =~= b@.take(i as int));
            (m, parse_exponent(x.as_slice()))
        },
        None => {
            let m = copy_range(b, 0, bl);
            assert(m@ =~= b@);
            (m, Some(0i128))
        },
    }
}

fn split_mantissa(m: &[char]) -> (r: (Vec<char>, Vec<char>))
    ensures
        (r.0@, r.1@) == mantissa_parts(m@),
{
    let ml = m.len();
    match find_char(m, '.') {
        Some(i) => {
            let ip = copy_range(m, 0, i);
            let fp = copy_range(m, i + 1, ml);
            assert(ip@ =~= m@.take(i as int));
            assert(fp@ =~= m@.skip(i + 1));
            (ip, fp)
        },
        None => {
            let ip = copy_range(m, 0, ml);
            assert(ip@ =~= m@);
            let fp: Vec<char> = Vec::new();
            assert(fp@ =~= Seq::<char>::empty());
            (ip, fp)
        },
    }
}

/// An unsigned finite number times ten to the power `scale`, rounded up and
/// saturated.
fn number_ceil(b: &[char], scale: u64) -> (r: Option<u64>)
    requires
        scale <= 1000,
    ensures
        match r {
            Some(v) => number_spec(b@) matches Some((d, p)) && v as nat == saturate(ceil_at_point(d, p + scale)),
            None => number_spec(b@) is None,
        },
{
    let (m, e) = split_exp(b);
    let (ip, fp) = split_mantissa(m.as_slice());
    let e = match e {
        Some(e) => e,
        None => return None,
    };
    if (ip.len() == 0 && fp.len() == 0) || !all_decimal_exec(ip.as_slice()) || !all_decimal_exec(fp.as_slice()) {
        return None;
    }
    let digits = concat(ip.as_slice(), fp.as_slice());
    proof {
        assert forall|i: int| 0 <= i < digits@.len() implies (#[trigger] digit_spec(digits@[i], 10)) is Some by {
            if i < ip@.len() {
                assert(digits@[i] == ip@[i]);
            } else {
                assert(digits@[i] == fp@[i - ip@.len()]);
            }
        }
    }
    let ilen = ip.len();
    let dlen = digits.len();
    let point: i128 = ilen as i128 + e + scale as i128;
    let v = ceil_exec(digits.as_slice(), point);
    proof {
        let et = exp_parts(b@).1->0;
        let truep = ip@.len() + et + scale;
        assert(ip@.len() == ilen && digits@.len() == dlen);
        assert(usize::MAX + 1100 < exponent_cap());
        if et > exponent_cap() {
            assert(e == exponent_cap());
            assert(point >= digits@.len() + 20);
            assert(truep >= digits@.len() + 20);
            lemma_ceil_regime(digits@, truep, point as int);
        } else if et < -exponent_cap() {
            assert(e == -exponent_cap());
            assert(point <= 0);
            assert(truep <= 0);
            lemma_ceil_regime(digits@, truep, point as int);
        } else {
            assert(truep == point);
        }
    }
    Some(v)
}

/// Reads a real number written as `str::parse` reads one for a real-valued
/// type (see [`real_text_spec`]) and gives it times ten to the power
/// `scale`, rounded up, as [`scaled_ceil`] says; `None` where the text is
/// no such number.
pub fn parse_real_scaled(s: &[char], scale: u64) -> (r: Option<u64>)
    requires
        scale <= 1000,
    ensures
        match r {
            Some(v) => real_text_spec(s@) matches Some(t) && v as nat == scaled_ceil(t, scale as nat),
            None => real_text_spec(s@) is None,
        },
{
    let n = s.len();
    let negative = n > 0 && s[0] == '-';
    let start: usize = if n > 0 && (s[0] == '+' || s[0] == '-') {
        1
    } else {
        0
    };
    let b = copy_range(s, start, n);
    assert(b@ =~= (if s@.len() > 0 && (s@[0] == '+' || s@[0] == '-') {
        s@.drop_first()
    } else {
        s@
    }));
    let inf = letters('i', 'n', 'f');
    let mut infinity = letters('i', 'n', 'f');
    infinity.push('i');
    infinity.push('n');
    infinity.push('i');
    infinity.push('t');
    infinity.push('y');
    assert(infinity@ =~= seq!['i', 'n', 'f', 'i', 'n', 'i', 't', 'y']);
    let nan = letters('n', 'a', 'n');
    if eq_ignore_ascii_case(b.as_slice(), inf.as_slice()) || eq_ignore_ascii_case(
        b.as_slice(),
        infinity.as_slice(),
    ) {
        return Some(
            if negative {
                0
            } else {
                u64::MAX
            },
        );
    }
    if eq_ignore_ascii_case(b.as_slice(), nan.as_slice()) {
        return Some(u64::MAX);
    }
    let v = match number_ceil(b.as_slice(), scale) {
        Some(v) => v,
        None => return None,
    };
    if negative {
        Some(0)
    } else {
        Some(v)
    }
}

} // verus!
