//! Character-level text model shared by the inventory rules.
//!
//! Every string is modelled by its view, the sequence of its Unicode scalar
//! values. The operations here (trimming, splitting, ASCII case folding,
//! substring search, decimal numbers) are stated over those sequences.
use vstd::prelude::*;

verus! {

// ----------------------------------------------------------------------------
// Unicode whitespace and lowercase
// ----------------------------------------------------------------------------

/// The Unicode `White_Space` property (PropList.txt), which
/// `char::is_whitespace` tests: tab to carriage return, space, next line,
/// no-break space, ogham space mark, the spaces U+2000 to U+200A, line and
/// paragraph separators, narrow no-break space, medium mathematical space
/// and ideographic space.
pub open spec fn unicode_whitespace(c: char) -> bool {
    let u = c as u32;
    ||| (9 <= u && u <= 13)
    ||| u == 32
    ||| u == 0x85
    ||| u == 0xa0
    ||| u == 0x1680
    ||| (0x2000 <= u && u <= 0x200a)
    ||| u == 0x2028
    ||| u == 0x2029
    ||| u == 0x202f
    ||| u == 0x205f
    ||| u == 0x3000
}

/// The full Unicode lowercase mapping of a string, as computed by
/// `str::to_lowercase`.
pub uninterp spec fn unicode_lowercase(s: Seq<char>) -> Seq<char>;

/// Whether a character is whitespace (`char::is_whitespace`).
pub fn char_is_whitespace(c: char) -> (r: bool)
    ensures
        r == unicode_whitespace(c),
{
    let u = c as u32;
    (9 <= u && u <= 13) || u == 32 || u == 0x85 || u == 0xa0 || u == 0x1680 || (0x2000 <= u && u
        <= 0x200a) || u == 0x2028 || u == 0x2029 || u == 0x202f || u == 0x205f || u == 0x3000
}

/// Every character is ASCII.
pub open spec fn all_ascii(s: Seq<char>) -> bool {
    forall|i: int| 0 <= i < s.len() ==> (#[trigger] s[i] as u32) < 128
}

/// Calls `str::to_lowercase`. The contract ties the result to the argument
/// through `unicode_lowercase`, says that the empty string stays empty and
/// that ASCII text is lowered letter by letter (`A`-`Z` to `a`-`z`, the rest
/// kept); the Unicode case tables for other text are not restated.
#[verifier::external_body]
pub(crate) fn to_lowercase(s: &str) -> (r: String)
    ensures
        r@ == unicode_lowercase(s@),
        s@.len() == 0 ==> r@.len() == 0,
        all_ascii(s@) ==> r@ == ascii_lower_seq(s@),
{
    s.to_lowercase()
}

/// Calls `String::push`, which appends one character.
#[verifier::external_body]
pub(crate) fn push_char(s: &mut String, c: char)
    ensures
        final(s)@ == old(s)@.push(c),
{
    s.push(c)
}

// ----------------------------------------------------------------------------
// Conversions between strings and character vectors
// ----------------------------------------------------------------------------

/// The characters of a string slice, in order.
pub fn chars_of(s: &str) -> (r: Vec<char>)
    ensures
        r@ == s@,
{
    let mut v: Vec<char> = Vec::new();
    for c in it: s.chars()
        invariant
            v@ == it.seq().take(it.index() as int),
    {
        v.push(c);
    }
    v
}

/// A string made of the given characters.
pub fn string_from_chars(chars: &Vec<char>) -> (r: String)
    ensures
        r@ == chars@,
{
    let mut s = String::new();
    let n = chars.len();
    for i in 0..n
        invariant
            n == chars@.len(),
            s@ == chars@.take(i as int),
    {
        push_char(&mut s, chars[i]);
        assert(chars@.take(i + 1) == chars@.take(i as int).push(chars@[i as int]));
    }
    assert(chars@.take(n as int) == chars@);
    s
}

/// Character-wise equality of two string slices.
pub fn str_equal(a: &str, b: &str) -> (r: bool)
    ensures
        r == (a@ == b@),
{
    let x = chars_of(a);
    let y = chars_of(b);
    chars_equal(&x, &y)
}

/// Element-wise equality of two character vectors.
pub fn chars_equal(x: &Vec<char>, y: &Vec<char>) -> (r: bool)
    ensures
        r == (x@ == y@),
{
    if x.len() != y.len() {
        return false;
    }
    let n = x.len();
    for i in 0..n
        invariant
            n == x@.len(),
            n == y@.len(),
            forall|j: int| 0 <= j < i ==> x@[j] == y@[j],
    {
        if x[i] != y[i] {
            return false;
        }
    }
    assert(x@ =~= y@);
    true
}

// ----------------------------------------------------------------------------
// Trimming
// ----------------------------------------------------------------------------

/// `s` without its leading whitespace.
pub open spec fn trim_start(s: Seq<char>) -> Seq<char>
    decreases s.len(),
{
    if s.len() > 0 && unicode_whitespace(s[0]) {
        trim_start(s.drop_first())
    } else {
        s
    }
}

/// `s` without its trailing whitespace.
pub open spec fn trim_end(s: Seq<char>) -> Seq<char>
    decreases s.len(),
{
    if s.len() > 0 && unicode_whitespace(s.last()) {
        trim_end(s.drop_last())
    } else {
        s
    }
}

/// `s` without leading and trailing whitespace, as `str::trim` returns it.
pub open spec fn trim(s: Seq<char>) -> Seq<char> {
    trim_end(trim_start(s))
}

/// A trimmed sequence is empty or starts and ends with non-whitespace.
pub open spec fn is_trimmed(s: Seq<char>) -> bool {
    s.len() > 0 ==> (!unicode_whitespace(s[0]) && !unicode_whitespace(s.last()))
}

proof fn lemma_trim_start_is_suffix(s: Seq<char>)
    ensures
        trim_start(s).len() <= s.len(),
        trim_start(s) == s.subrange(s.len() - trim_start(s).len(), s.len() as int),
        trim_start(s).len() > 0 ==> !unicode_whitespace(trim_start(s)[0]),
    decreases s.len(),
{
    if s.len() > 0 && unicode_whitespace(s[0]) {
        lemma_trim_start_is_suffix(s.drop_first());
        let t = trim_start(s.drop_first());
        assert(s.drop_first().subrange(s.len() - 1 - t.len(), s.len() - 1) =~= s.subrange(
            s.len() - t.len(),
            s.len() as int,
        ));
    } else {
        assert(s.subrange(0, s.len() as int) =~= s);
    }
}

proof fn lemma_trim_end_is_prefix(s: Seq<char>)
    ensures
        trim_end(s).len() <= s.len(),
        trim_end(s) == s.subrange(0, trim_end(s).len() as int),
        trim_end(s).len() > 0 ==> !unicode_whitespace(trim_end(s).last()),
        s.len() > 0 && !unicode_whitespace(s[0]) ==> trim_end(s).len() > 0 && trim_end(s)[0]
            == s[0],
    decreases s.len(),
{
    if s.len() > 0 && unicode_whitespace(s.last()) {
        lemma_trim_end_is_prefix(s.drop_last());
        let t = trim_end(s.drop_last());
        assert(s.drop_last().subrange(0, t.len() as int) =~= s.subrange(0, t.len() as int));
    } else {
        assert(s.subrange(0, s.len() as int) =~= s);
    }
}

/// What `trim` leaves starts and ends with a non-whitespace character.
pub proof fn lemma_trim_is_trimmed(s: Seq<char>)
    ensures
        is_trimmed(trim(s)),
        trim(s).len() <= s.len(),
{
    lemma_trim_start_is_suffix(s);
    lemma_trim_end_is_prefix(trim_start(s));
}

proof fn lemma_trim_start_of_trimmed(s: Seq<char>)
    requires
        s.len() == 0 || !unicode_whitespace(s[0]),
    ensures
        trim_start(s) == s,
{
}

proof fn lemma_trim_end_of_trimmed(s: Seq<char>)
    requires
        s.len() == 0 || !unicode_whitespace(s.last()),
    ensures
        trim_end(s) == s,
{
}

/// Trimming twice is trimming once.
pub proof fn lemma_trim_idempotent(s: Seq<char>)
    ensures
        trim(trim(s)) == trim(s),
{
    lemma_trim_is_trimmed(s);
    lemma_trimmed_is_fixed(trim(s));
}

/// A trimmed sequence is left unchanged by `trim`.
pub proof fn lemma_trimmed_is_fixed(s: Seq<char>)
    requires
        is_trimmed(s),
    ensures
        trim(s) == s,
{
    lemma_trim_start_of_trimmed(s);
    lemma_trim_end_of_trimmed(s);
}

proof fn lemma_trim_start_step(s: Seq<char>, start: int)
    requires
        0 <= start < s.len(),
        unicode_whitespace(s[start]),
    ensures
        trim_start(s.subrange(start, s.len() as int)) == trim_start(
            s.subrange(start + 1, s.len() as int),
        ),
{
    let t = s.subrange(start, s.len() as int);
    assert(t.drop_first() =~= s.subrange(start + 1, s.len() as int));
}

proof fn lemma_trim_end_step(s: Seq<char>, start: int, end: int)
    requires
        0 <= start < end <= s.len(),
        unicode_whitespace(s[end - 1]),
    ensures
        trim_end(s.subrange(start, end)) == trim_end(s.subrange(start, end - 1)),
{
    let t = s.subrange(start, end);
    assert(t.drop_last() =~= s.subrange(start, end - 1));
}

/// The trimmed view of a string slice, as `str::trim` returns it.
pub fn trim_str(s: &str) -> (r: &str)
    ensures
        r@ == trim(s@),
{
    let chars = chars_of(s);
    let n = chars.len();
    let mut start: usize = 0;
    assert(chars@.subrange(0, n as int) =~= chars@);
    loop
        invariant
            0 <= start <= n,
            n == chars@.len(),
            chars@ == s@,
            trim_start(s@) == trim_start(chars@.subrange(start as int, n as int)),
        ensures
            0 <= start <= n,
            start == n || !unicode_whitespace(chars@[start as int]),
            trim_start(s@) == trim_start(chars@.subrange(start as int, n as int)),
        decreases n - start,
    {
        if start == n {
            break;
        }
        if !char_is_whitespace(chars[start]) {
            break;
        }
        proof {
            lemma_trim_start_step(chars@, start as int);
        }
        start = start + 1;
    }
    let ghost rest = chars@.subrange(start as int, n as int);
    assert(trim_start(s@) == rest) by {
        lemma_trim_start_of_trimmed(rest);
    }
    let mut end: usize = n;
    assert(chars@.subrange(start as int, end as int) == rest);
    loop
        invariant
            start <= end <= n,
            n == chars@.len(),
            chars@ == s@,
            trim_start(s@) == chars@.subrange(start as int, n as int),
            trim(s@) == trim_end(chars@.subrange(start as int, end as int)),
        ensures
            start <= end <= n,
            end == start || !unicode_whitespace(chars@[end - 1]),
            trim(s@) == trim_end(chars@.subrange(start as int, end as int)),
        decreases end - start,
    {
        if end == start {
            break;
        }
        if !char_is_whitespace(chars[end - 1]) {
            break;
        }
        proof {
            lemma_trim_end_step(chars@, start as int, end as int);
        }
        end = end - 1;
    }
    proof {
        let t = chars@.subrange(start as int, end as int);
        if t.len() > 0 {
            assert(t.last() == chars@[end - 1]);
        }
        lemma_trim_end_of_trimmed(t);
    }
    s.substring_char(start, end)
}

// ----------------------------------------------------------------------------
// Splitting on separator characters
// ----------------------------------------------------------------------------

/// The pieces of `s` between the characters for which `sep` holds, as
/// `str::split` yields them: an empty `s` gives one empty piece, and a
/// separator at either end gives an empty piece there.
pub open spec fn split_chars(s: Seq<char>, sep: spec_fn(char) -> bool) -> Seq<Seq<char>>
    decreases s.len(),
{
    if s.len() == 0 {
        seq![Seq::<char>::empty()]
    } else {
        let prev = split_chars(s.drop_last(), sep);
        if sep(s.last()) {
            prev.push(Seq::<char>::empty())
        } else {
            prev.update(prev.len() - 1, prev.last().push(s.last()))
        }
    }
}

/// The separator predicate for one or two separator characters.
pub open spec fn is_one_of(a: char, b: char) -> spec_fn(char) -> bool {
    |c: char| c == a || c == b
}

/// A split always has at least one piece.
pub proof fn lemma_split_chars_nonempty(s: Seq<char>, sep: spec_fn(char) -> bool)
    ensures
        split_chars(s, sep).len() >= 1,
    decreases s.len(),
{
    if s.len() > 0 {
        lemma_split_chars_nonempty(s.drop_last(), sep);
    }
}

/// The views of a vector of strings.
pub open spec fn views(v: Seq<String>) -> Seq<Seq<char>> {
    v.map_values(|x: String| x@)
}

/// Splits `s` at every occurrence of `a` or `b` (pass the same character
/// twice for a single separator).
pub fn split_on(s: &str, a: char, b: char) -> (r: Vec<String>)
    ensures
        views(r@) == split_chars(s@, is_one_of(a, b)),
{
    let chars = chars_of(s);
    let n = chars.len();
    let ghost sep = is_one_of(a, b);
    let mut pieces: Vec<String> = Vec::new();
    let mut start: usize = 0;
    assert(chars@.take(0) =~= Seq::<char>::empty());
    assert(views(pieces@).push(chars@.subrange(0, 0)) =~= split_chars(chars@.take(0), sep));
    for i in 0..n
        invariant
            n == chars@.len(),
            chars@ == s@,
            sep == is_one_of(a, b),
            start <= i,
            views(pieces@).push(chars@.subrange(start as int, i as int)) == split_chars(
                chars@.take(i as int),
                sep,
            ),
    {
        let ghost prev = split_chars(chars@.take(i as int), sep);
        assert(chars@.take(i + 1).drop_last() =~= chars@.take(i as int));
        assert(chars@.take(i + 1).last() == chars@[i as int]);
        let c = chars[i];
        if c == a || c == b {
            let piece = s.substring_char(start, i).to_owned();
            let ghost old_views = views(pieces@);
            pieces.push(piece);
            assert(views(pieces@) =~= old_views.push(chars@.subrange(start as int, i as int)));
            start = i + 1;
            assert(chars@.subrange(start as int, i + 1) =~= Seq::<char>::empty());
            assert(views(pieces@).push(chars@.subrange(start as int, i + 1)) =~= prev.push(
                Seq::<char>::empty(),
            ));
        } else {
            assert(chars@.subrange(start as int, i + 1) =~= chars@.subrange(
                start as int,
                i as int,
            ).push(c));
            assert(views(pieces@).push(chars@.subrange(start as int, i + 1)) =~= prev.update(
                prev.len() - 1,
                prev.last().push(c),
            ));
        }
    }
    let last = s.substring_char(start, n).to_owned();
    let ghost old_views = views(pieces@);
    pieces.push(last);
    assert(views(pieces@) =~= old_views.push(chars@.subrange(start as int, n as int)));
    assert(chars@.take(n as int) =~= chars@);
    pieces
}

// ----------------------------------------------------------------------------
// ASCII case folding
// ----------------------------------------------------------------------------

/// `char::to_ascii_lowercase`: ASCII capitals become small letters, every
/// other character stays.
pub open spec fn ascii_lower(c: char) -> char {
    if 'A' <= c && c <= 'Z' {
        ((c as u32) + 32) as char
    } else {
        c
    }
}

/// `str::to_ascii_lowercase` on a character sequence.
pub open spec fn ascii_lower_seq(s: Seq<char>) -> Seq<char> {
    s.map_values(|c: char| ascii_lower(c))
}

/// `str::eq_ignore_ascii_case`: equal once ASCII letters are folded.
pub open spec fn eq_ignore_ascii_case(a: Seq<char>, b: Seq<char>) -> bool {
    ascii_lower_seq(a) == ascii_lower_seq(b)
}

/// ASCII lowercase of one character.
pub fn to_ascii_lower(c: char) -> (r: char)
    ensures
        r == ascii_lower(c),
{
    if 'A' <= c && c <= 'Z' {
        let code: u8 = (c as u8) + 32;
        let lower: char = code as char;
        lower
    } else {
        c
    }
}

/// Compares two character vectors ignoring ASCII case.
pub fn chars_eq_ignore_ascii_case(x: &Vec<char>, y: &Vec<char>) -> (r: bool)
    ensures
        r == eq_ignore_ascii_case(x@, y@),
{
    if x.len() != y.len() {
        proof {
            assert(ascii_lower_seq(x@).len() != ascii_lower_seq(y@).len());
        }
        return false;
    }
    let n = x.len();
    for i in 0..n
        invariant
            n == x@.len(),
            n == y@.len(),
            forall|j: int| 0 <= j < i ==> ascii_lower(x@[j]) == ascii_lower(y@[j]),
    {
        if to_ascii_lower(x[i]) != to_ascii_lower(y[i]) {
            proof {
                assert(ascii_lower_seq(x@)[i as int] != ascii_lower_seq(y@)[i as int]);
            }
            return false;
        }
    }
    assert(ascii_lower_seq(x@) =~= ascii_lower_seq(y@));
    true
}

/// The ASCII-lowercased characters of a string slice.
pub fn ascii_lowered(s: &str) -> (r: Vec<char>)
    ensures
        r@ == ascii_lower_seq(s@),
{
    let chars = chars_of(s);
    let mut out: Vec<char> = Vec::new();
    let n = chars.len();
    for i in 0..n
        invariant
            n == chars@.len(),
            chars@ == s@,
            out@ == ascii_lower_seq(s@).take(i as int),
    {
        out.push(to_ascii_lower(chars[i]));
        assert(ascii_lower_seq(s@).take(i + 1) =~= ascii_lower_seq(s@).take(i as int).push(
            ascii_lower(chars@[i as int]),
        ));
    }
    assert(ascii_lower_seq(s@).take(n as int) =~= ascii_lower_seq(s@));
    out
}

/// Compares two string slices ignoring ASCII case.
pub fn str_eq_ignore_ascii_case(a: &str, b: &str) -> (r: bool)
    ensures
        r == eq_ignore_ascii_case(a@, b@),
{
    let x = chars_of(a);
    let y = chars_of(b);
    chars_eq_ignore_ascii_case(&x, &y)
}

// ----------------------------------------------------------------------------
// Substring search
// ----------------------------------------------------------------------------

/// `needle` occurs in `hay` as a contiguous run (`str::contains`).
pub open spec fn contains_seq(hay: Seq<char>, needle: Seq<char>) -> bool {
    exists|i: int|
        0 <= i && i + needle.len() <= hay.len() && #[trigger] hay.subrange(i, i + needle.len())
            == needle
}

/// Whether `needle` occurs at position `i` of `hay`.
fn occurs_at(hay: &Vec<char>, needle: &Vec<char>, i: usize) -> (r: bool)
    requires
        i + needle@.len() <= hay@.len(),
    ensures
        r == (hay@.subrange(i as int, i + needle@.len()) == needle@),
{
    let m = needle.len();
    let hl = hay.len();
    for k in 0..m
        invariant
            m == needle@.len(),
            hl == hay@.len(),
            i + m <= hay@.len(),
            forall|j: int| 0 <= j < k ==> hay@[i + j] == needle@[j],
    {
        assert(i + k < hl);
        if hay[i + k] != needle[k] {
            proof {
                assert(hay@.subrange(i as int, i + m)[k as int] != needle@[k as int]);
            }
            return false;
        }
    }
    assert(hay@.subrange(i as int, i + m) =~= needle@);
    true
}

/// Whether `needle` occurs in `hay`.
pub fn chars_contain(hay: &Vec<char>, needle: &Vec<char>) -> (r: bool)
    ensures
        r == contains_seq(hay@, needle@),
{
    if needle.len() > hay.len() {
        return false;
    }
    let last = hay.len() - needle.len();
    let mut i: usize = 0;
    loop
        invariant
            i <= last,
            last + needle@.len() == hay@.len(),
            forall|j: int|
                0 <= j < i ==> #[trigger] hay@.subrange(j, j + needle@.len()) != needle@,
        decreases last - i,
    {
        if occurs_at(hay, needle, i) {
            return true;
        }
        if i == last {
            return false;
        }
        i = i + 1;
    }
}

/// Whether `needle` occurs in the string slice `hay`.
pub fn str_contains(hay: &str, needle: &Vec<char>) -> (r: bool)
    ensures
        r == contains_seq(hay@, needle@),
{
    let h = chars_of(hay);
    chars_contain(&h, needle)
}

/// Whether `needle` occurs in the Unicode lowercase form of `text`.
pub fn lower_contains(text: &str, needle: &Vec<char>) -> (r: bool)
    ensures
        r == contains_seq(unicode_lowercase(text@), needle@),
{
    let lowered = to_lowercase(text);
    str_contains(lowered.as_str(), needle)
}

// ----------------------------------------------------------------------------
// Decimal numbers
// ----------------------------------------------------------------------------

/// `char::is_ascii_digit`.
pub open spec fn is_ascii_digit(c: char) -> bool {
    '0' <= c && c <= '9'
}

/// The value of one ASCII digit.
pub open spec fn digit_value(c: char) -> nat {
    ((c as int) - ('0' as int)) as nat
}

/// The ASCII digit of a value below ten.
pub open spec fn digit_char(d: nat) -> char {
    (('0' as int) + d) as char
}

/// The value of a run of decimal digits, most significant first.
pub open spec fn digits_value(s: Seq<char>) -> nat
    decreases s.len(),
{
    if s.len() == 0 {
        0
    } else {
        digits_value(s.drop_last()) * 10 + digit_value(s.last())
    }
}

/// All characters are ASCII digits.
pub open spec fn all_digits(s: Seq<char>) -> bool {
    forall|i: int| 0 <= i < s.len() ==> is_ascii_digit(#[trigger] s[i])
}

/// `u16::from_str`: an optional `+`, then one or more ASCII digits whose
/// value fits in sixteen bits.
pub open spec fn parse_u16(s: Seq<char>) -> Option<u16> {
    let digits = if s.len() > 0 && s[0] == '+' {
        s.drop_first()
    } else {
        s
    };
    if digits.len() > 0 && all_digits(digits) && digits_value(digits) <= 65535 {
        Some(digits_value(digits) as u16)
    } else {
        None
    }
}

/// The decimal rendering of `n` without leading zeros (`u16::to_string`).
pub open spec fn decimal(n: nat) -> Seq<char>
    decreases n,
{
    if n < 10 {
        seq![digit_char(n)]
    } else {
        decimal(n / 10).push(digit_char(n % 10))
    }
}

/// The value of the digits, saturated at 65536.
spec fn capped_value(s: Seq<char>) -> nat {
    if digits_value(s) > 65536 {
        65536
    } else {
        digits_value(s)
    }
}

proof fn lemma_capped_step(s: Seq<char>, c: char)
    requires
        is_ascii_digit(c),
    ensures
        capped_value(s.push(c)) == (if capped_value(s) * 10 + digit_value(c) > 65536 {
            65536
        } else {
            capped_value(s) * 10 + digit_value(c)
        }),
{
    assert(s.push(c).drop_last() =~= s);
}

/// Parses a string slice as `u16::from_str` does.
pub fn parse_u16_str(s: &str) -> (r: Option<u16>)
    ensures
        r == parse_u16(s@),
{
    let chars = chars_of(s);
    let n = chars.len();
    let mut start: usize = 0;
    if n > 0 && chars[0] == '+' {
        start = 1;
    }
    let ghost digits = if s@.len() > 0 && s@[0] == '+' {
        s@.drop_first()
    } else {
        s@
    };
    assert(digits =~= chars@.subrange(start as int, n as int));
    if start == n {
        return None;
    }
    let mut value: u32 = 0;
    let mut i: usize = start;
    assert(chars@.subrange(start as int, start as int) =~= Seq::<char>::empty());
    while i < n
        invariant
            start <= i <= n,
            n == chars@.len(),
            chars@ == s@,
            digits == (if s@.len() > 0 && s@[0] == '+' {
                s@.drop_first()
            } else {
                s@
            }),
            digits == chars@.subrange(start as int, n as int),
            all_digits(chars@.subrange(start as int, i as int)),
            value as nat == capped_value(chars@.subrange(start as int, i as int)),
            value <= 65536,
        decreases n - i,
    {
        let c = chars[i];
        if !('0' <= c && c <= '9') {
            proof {
                assert(digits[i - start] == c);
                assert(!all_digits(digits));
            }
            return None;
        }
        let d: u32 = (c as u32) - ('0' as u32);
        proof {
            lemma_capped_step(chars@.subrange(start as int, i as int), c);
            assert(chars@.subrange(start as int, i as int).push(c) =~= chars@.subrange(
                start as int,
                i + 1,
            ));
        }
        let next: u32 = value * 10 + d;
        if next > 65536 {
            value = 65536;
        } else {
            value = next;
        }
        i = i + 1;
    }
    assert(chars@.subrange(start as int, n as int) == digits);
    if value > 65535 {
        None
    } else {
        Some(value as u16)
    }
}

proof fn lemma_decimal_len(n: nat)
    ensures
        decimal(n).len() >= 1,
    decreases n,
{
    if n >= 10 {
        lemma_decimal_len(n / 10);
    }
}

/// The decimal digits of `n`, as `to_string` writes an unsigned integer.
pub fn decimal_string(n: u64) -> (r: String)
    ensures
        r@ == decimal(n as nat),
{
    let mut reversed: Vec<char> = Vec::new();
    let mut rest: u64 = n;
    let ghost mut suffix: Seq<char> = Seq::empty();
    // reversed holds the low digits, least significant first
    loop
        invariant
            reversed@.len() == suffix.len(),
            forall|j: int| 0 <= j < suffix.len() ==> reversed@[j] == suffix[suffix.len() - 1 - j],
            rest < 10 ==> decimal(n as nat) == decimal(rest as nat) + suffix,
            rest >= 10 ==> decimal(n as nat) == decimal(rest as nat) + suffix,
        ensures
            rest < 10,
            reversed@.len() == suffix.len(),
            forall|j: int| 0 <= j < suffix.len() ==> reversed@[j] == suffix[suffix.len() - 1 - j],
            decimal(n as nat) == decimal(rest as nat) + suffix,
        decreases rest,
    {
        if rest < 10 {
            break;
        }
        let d: u64 = rest % 10;
        let c: char = ((d as u8) + 48) as char;
        proof {
            assert(c == digit_char(d as nat));
            assert(decimal(rest as nat) == decimal((rest / 10) as nat).push(c));
            assert(decimal((rest / 10) as nat).push(c) + suffix =~= decimal((rest / 10) as nat)
                + seq![c].add(suffix));
            suffix = seq![c].add(suffix);
        }
        reversed.push(c);
        rest = rest / 10;
    }
    let small: u8 = rest as u8;
    let top: char = (small + 48) as char;
    assert(top == digit_char(rest as nat));
    assert(decimal(rest as nat) =~= seq![top]);
    reversed.push(top);
    let ghost full = seq![top].add(suffix);
    assert(decimal(n as nat) =~= full);
    let mut out: Vec<char> = Vec::new();
    let len = reversed.len();
    for k in 0..len
        invariant
            len == reversed@.len(),
            len == full.len(),
            forall|j: int| 0 <= j < len ==> reversed@[j] == full[len - 1 - j],
            out@ == full.take(k as int),
    {
        let c = reversed[len - 1 - k];
        out.push(c);
        assert(full.take(k + 1) =~= full.take(k as int).push(full[k as int]));
    }
    assert(full.take(len as int) =~= full);
    string_from_chars(&out)
}

// ----------------------------------------------------------------------------
// Joining
// ----------------------------------------------------------------------------

/// The pieces written one after another with `sep` between neighbours
/// (`[String]::join`).
pub open spec fn join(pieces: Seq<Seq<char>>, sep: Seq<char>) -> Seq<char>
    decreases pieces.len(),
{
    if pieces.len() == 0 {
        Seq::empty()
    } else if pieces.len() == 1 {
        pieces[0]
    } else {
        join(pieces.drop_last(), sep) + sep + pieces.last()
    }
}

/// The separator `", "`.
pub open spec fn comma_space() -> Seq<char> {
    seq![',', ' ']
}

/// Joins strings with `", "` between neighbours.
pub fn join_comma_space(pieces: &Vec<String>) -> (r: String)
    ensures
        r@ == join(views(pieces@), comma_space()),
{
    let mut out = String::new();
    let n = pieces.len();
    for i in 0..n
        invariant
            n == pieces@.len(),
            out@ == join(views(pieces@).take(i as int), comma_space()),
    {
        let ghost before = views(pieces@).take(i as int);
        assert(views(pieces@).take(i + 1).drop_last() =~= before);
        if i > 0 {
            push_char(&mut out, ',');
            push_char(&mut out, ' ');
            assert(out@ =~= join(before, comma_space()) + comma_space());
        } else {
            assert(views(pieces@).take(1) =~= seq![pieces@[0]@]);
        }
        out.append(pieces[i].as_str());
    }
    assert(views(pieces@).take(n as int) =~= views(pieces@));
    out
}

} // verus!

verus! {

/// The decimal rendering of `n` is a run of digits worth `n`.
pub proof fn lemma_decimal_digits(n: nat)
    ensures
        decimal(n).len() >= 1,
        all_digits(decimal(n)),
        digits_value(decimal(n)) == n,
    decreases n,
{
    if n < 10 {
        let c = digit_char(n);
        assert(is_ascii_digit(c));
        assert(digit_value(c) == n);
        assert(decimal(n) =~= seq![c]);
        assert(decimal(n).drop_last() =~= Seq::<char>::empty());
        assert(digits_value(Seq::<char>::empty()) == 0);
        assert(decimal(n).last() == c);
    } else {
        lemma_decimal_digits(n / 10);
        let c = digit_char(n % 10);
        assert(is_ascii_digit(c));
        assert(digit_value(c) == n % 10);
        assert(decimal(n).drop_last() =~= decimal(n / 10));
        assert(decimal(n).last() == c);
        vstd::arithmetic::div_mod::lemma_fundamental_div_mod(n as int, 10);
        assert(digits_value(decimal(n)) == digits_value(decimal(n / 10)) * 10 + digit_value(c));
        assert((n / 10) * 10 + n % 10 == n);
        assert(forall|i: int| 0 <= i < decimal(n).len() ==> #[trigger] decimal(n)[i] == (if i
            < decimal(n / 10).len() {
            decimal(n / 10)[i]
        } else {
            c
        }));
    }
}

/// Different numbers have different decimal renderings.
pub proof fn lemma_decimal_injective(a: nat, b: nat)
    requires
        decimal(a) == decimal(b),
    ensures
        a == b,
{
    lemma_decimal_digits(a);
    lemma_decimal_digits(b);
}

} // verus!

verus! {

/// Joins strings with `sep` between neighbours.
pub fn join_with(pieces: &Vec<String>, sep: &str) -> (r: String)
    ensures
        r@ == join(views(pieces@), sep@),
{
    let mut out = String::new();
    let n = pieces.len();
    for i in 0..n
        invariant
            n == pieces@.len(),
            out@ == join(views(pieces@).take(i as int), sep@),
    {
        let ghost before = views(pieces@).take(i as int);
        assert(views(pieces@).take(i + 1).drop_last() =~= before);
        if i > 0 {
            out.append(sep);
        } else {
            assert(views(pieces@).take(1) =~= seq![pieces@[0]@]);
        }
        out.append(pieces[i].as_str());
    }
    assert(views(pieces@).take(n as int) =~= views(pieces@));
    out
}

} // verus!

verus! {

// ----------------------------------------------------------------------------
// Splitting joined lists
// ----------------------------------------------------------------------------

/// No character of `s` is a separator.
pub open spec fn free_of(s: Seq<char>, sep: spec_fn(char) -> bool) -> bool {
    forall|i: int| 0 <= i < s.len() ==> !sep(#[trigger] s[i])
}

/// Appending text without separators extends the last piece.
pub proof fn lemma_split_append_plain(s: Seq<char>, t: Seq<char>, sep: spec_fn(char) -> bool)
    requires
        free_of(t, sep),
    ensures
        split_chars(s + t, sep) == split_chars(s, sep).update(
            split_chars(s, sep).len() - 1,
            split_chars(s, sep).last() + t,
        ),
    decreases t.len(),
{
    lemma_split_chars_nonempty(s, sep);
    let p = split_chars(s, sep);
    if t.len() == 0 {
        assert(s + t =~= s);
        assert(p.last() + t =~= p.last());
        assert(p.update(p.len() - 1, p.last()) =~= p);
    } else {
        let t0 = t.drop_last();
        let c = t.last();
        assert(free_of(t0, sep));
        lemma_split_append_plain(s, t0, sep);
        assert((s + t).drop_last() =~= s + t0);
        assert((s + t).last() == c);
        assert(!sep(t[t.len() - 1]));
        let prev = split_chars(s + t0, sep);
        assert(prev.last() =~= p.last() + t0);
        assert((p.last() + t0).push(c) =~= p.last() + t);
        assert(prev.update(prev.len() - 1, prev.last().push(c)) =~= p.update(
            p.len() - 1,
            p.last() + t,
        ));
    }
}

/// A separator starts a new, empty piece.
pub proof fn lemma_split_push_separator(s: Seq<char>, c: char, sep: spec_fn(char) -> bool)
    requires
        sep(c),
    ensures
        split_chars(s.push(c), sep) == split_chars(s, sep).push(Seq::<char>::empty()),
{
    assert(s.push(c).drop_last() =~= s);
}

/// The first piece, then every other piece after a space.
pub open spec fn space_prefixed(q: Seq<Seq<char>>) -> Seq<Seq<char>> {
    seq![q[0]] + q.drop_first().map_values(|x: Seq<char>| seq![' '] + x)
}

/// Splitting a `", "`-joined list at commas gives the pieces back, all but
/// the first behind the space of the separator.
pub proof fn lemma_split_joined(q: Seq<Seq<char>>, sep: spec_fn(char) -> bool)
    requires
        q.len() >= 1,
        forall|i: int| 0 <= i < q.len() ==> free_of(#[trigger] q[i], sep),
        sep(','),
        !sep(' '),
    ensures
        split_chars(join(q, comma_space()), sep) == space_prefixed(q),
    decreases q.len(),
{
    if q.len() == 1 {
        assert(join(q, comma_space()) == q[0]);
        lemma_split_append_plain(Seq::<char>::empty(), q[0], sep);
        assert(Seq::<char>::empty() + q[0] =~= q[0]);
        assert(split_chars(Seq::<char>::empty(), sep) =~= seq![Seq::<char>::empty()]);
        assert(space_prefixed(q) =~= seq![q[0]]);
    } else {
        let prev = q.drop_last();
        let last = q.last();
        assert(forall|i: int| 0 <= i < prev.len() ==> free_of(#[trigger] prev[i], sep)) by {
            assert forall|i: int| 0 <= i < prev.len() implies free_of(#[trigger] prev[i], sep) by {
                assert(prev[i] == q[i]);
            }
        }
        lemma_split_joined(prev, sep);
        let jp = join(prev, comma_space());
        assert(join(q, comma_space()) == jp + comma_space() + last);
        let tail = seq![' '] + last;
        assert(free_of(last, sep)) by {
            assert(q[q.len() - 1] == last);
        }
        assert(free_of(tail, sep)) by {
            assert forall|i: int| 0 <= i < tail.len() implies !sep(#[trigger] tail[i]) by {
                if i > 0 {
                    assert(tail[i] == last[i - 1]);
                }
            }
        }
        assert(jp + comma_space() + last =~= jp.push(',') + tail);
        lemma_split_push_separator(jp, ',', sep);
        lemma_split_append_plain(jp.push(','), tail, sep);
        let p = split_chars(jp.push(','), sep);
        assert(p.last() + tail =~= tail);
        assert(p.update(p.len() - 1, tail) =~= space_prefixed(prev).push(tail));
        assert(space_prefixed(prev).push(tail) =~= space_prefixed(q));
    }
}

/// Trimming removes the space in front of a trimmed text.
pub proof fn lemma_trim_space_prefixed(x: Seq<char>)
    requires
        is_trimmed(x),
    ensures
        trim(seq![' '] + x) == x,
{
    let s = seq![' '] + x;
    assert(s.drop_first() =~= x);
    assert(unicode_whitespace(s[0]));
    assert(trim_start(s) == trim_start(x));
    lemma_trimmed_is_fixed(x);
}

/// The pieces of a split contain no separator.
pub proof fn lemma_split_pieces_free(s: Seq<char>, sep: spec_fn(char) -> bool)
    ensures
        forall|i: int|
            0 <= i < split_chars(s, sep).len() ==> free_of(#[trigger] split_chars(s, sep)[i], sep),
    decreases s.len(),
{
    if s.len() > 0 {
        lemma_split_pieces_free(s.drop_last(), sep);
        lemma_split_chars_nonempty(s.drop_last(), sep);
        let prev = split_chars(s.drop_last(), sep);
        if !sep(s.last()) {
            let ext = prev.last().push(s.last());
            assert(free_of(prev[prev.len() - 1], sep));
            assert(free_of(ext, sep)) by {
                assert forall|i: int| 0 <= i < ext.len() implies !sep(#[trigger] ext[i]) by {
                    if i < prev.last().len() {
                        assert(ext[i] == prev.last()[i]);
                    }
                }
            }
        } else {
            assert(free_of(Seq::<char>::empty(), sep));
        }
    }
}

/// Trimming keeps a text free of separators.
pub proof fn lemma_trim_keeps_free(s: Seq<char>, sep: spec_fn(char) -> bool)
    requires
        free_of(s, sep),
    ensures
        free_of(trim(s), sep),
{
    lemma_trim_start_is_suffix(s);
    let a = trim_start(s);
    lemma_trim_end_is_prefix(a);
    let start = s.len() - a.len();
    assert forall|i: int| 0 <= i < trim(s).len() implies !sep(#[trigger] trim(s)[i]) by {
        assert(trim(s)[i] == a[i]);
        assert(a[i] == s[start + i]);
    }
}

/// A decimal rendering is a trimmed, non-empty run of digits.
pub proof fn lemma_decimal_trimmed(n: nat)
    ensures
        is_trimmed(decimal(n)),
        decimal(n).len() > 0,
        free_of(decimal(n), is_one_of(',', ',')),
        parse_u16(decimal(n)) == (if n <= 65535 {
            Some(n as u16)
        } else {
            None::<u16>
        }),
{
    lemma_decimal_digits(n);
    let d = decimal(n);
    assert(is_ascii_digit(d[0]));
    assert(is_ascii_digit(d[d.len() - 1]));
    assert(free_of(d, is_one_of(',', ','))) by {
        assert forall|i: int| 0 <= i < d.len() implies !is_one_of(',', ',')(#[trigger] d[i]) by {
            assert(is_ascii_digit(d[i]));
        }
    }
}

// ----------------------------------------------------------------------------
// Splitting at one character and joining back
// ----------------------------------------------------------------------------

/// How many times `c` occurs in `s`.
pub open spec fn count_char(s: Seq<char>, c: char) -> nat
    decreases s.len(),
{
    if s.len() == 0 {
        0
    } else {
        count_char(s.drop_last(), c) + if s.last() == c {
            1nat
        } else {
            0nat
        }
    }
}

proof fn lemma_join_extend_last(p: Seq<Seq<char>>, sep: Seq<char>, x: char)
    requires
        p.len() >= 1,
    ensures
        join(p.update(p.len() - 1, p.last().push(x)), sep) == join(p, sep).push(x),
{
    let q = p.update(p.len() - 1, p.last().push(x));
    if p.len() == 1 {
        assert(q[0] == p[0].push(x));
    } else {
        assert(q.drop_last() =~= p.drop_last());
        assert(q.last() == p.last().push(x));
        assert(join(p, sep) == join(p.drop_last(), sep) + sep + p.last());
        assert(join(q, sep) == join(q.drop_last(), sep) + sep + q.last());
        assert(join(p.drop_last(), sep) + sep + p.last().push(x) =~= (join(p.drop_last(), sep) + sep
            + p.last()).push(x));
    }
}

/// Splitting at a character and joining the pieces with that character
/// gives the text back; there is one piece more than there are separators,
/// and no piece holds the separator.
pub proof fn lemma_split_join_single(s: Seq<char>, c: char)
    ensures
        join(split_chars(s, is_one_of(c, c)), seq![c]) == s,
        split_chars(s, is_one_of(c, c)).len() == count_char(s, c) + 1,
        forall|i: int|
            0 <= i < split_chars(s, is_one_of(c, c)).len() ==> free_of(
                #[trigger] split_chars(s, is_one_of(c, c))[i],
                is_one_of(c, c),
            ),
    decreases s.len(),
{
    lemma_split_pieces_free(s, is_one_of(c, c));
    if s.len() > 0 {
        let rest = s.drop_last();
        lemma_split_join_single(rest, c);
        lemma_split_chars_nonempty(rest, is_one_of(c, c));
        let prev = split_chars(rest, is_one_of(c, c));
        if s.last() == c {
            let next = prev.push(Seq::<char>::empty());
            assert(split_chars(s, is_one_of(c, c)) == next);
            assert(next.drop_last() =~= prev);
            assert(join(next, seq![c]) == join(prev, seq![c]) + seq![c] + Seq::<char>::empty());
            assert(rest + seq![c] + Seq::<char>::empty() =~= s);
        } else {
            assert(split_chars(s, is_one_of(c, c)) == prev.update(prev.len() - 1, prev.last().push(s.last())));
            lemma_join_extend_last(prev, seq![c], s.last());
            assert(rest.push(s.last()) =~= s);
        }
    }
}

} // verus!
