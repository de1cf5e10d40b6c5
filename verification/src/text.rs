//! Character-level text helpers used by names, paths and translations.

use vstd::prelude::*;

verus! {

broadcast use vstd::string::group_string_axioms;

/// The characters of a string slice.
pub fn chars_of(s: &str) -> (v: Vec<char>)
    ensures
        v@ == s@,
{
    let mut v: Vec<char> = Vec::new();
    for c in it: s.chars()
        invariant
            v@ == it.seq().take(it.index() as int),
    {
        v.push(c);
    }
    v
}

/// Appends one character to a string by `String::push`, which, as its documentation says,
/// adds the character at the end: the string's characters afterwards are the old ones
/// followed by it.
#[verifier::external_body]
pub(crate) fn push_char(s: &mut String, c: char)
    ensures
        final(s)@ == old(s)@.push(c),
{
    s.push(c);
}

/// Builds a string from characters.
pub fn string_from_chars(v: &Vec<char>) -> (s: String)
    ensures
        s@ == v@,
{
    let mut s = String::new();
    let mut i: usize = 0;
    while i < v.len()
        invariant
            i <= v@.len(),
            s@ == v@.take(i as int),
        decreases v@.len() - i,
    {
        push_char(&mut s, v[i]);
        assert(v@.take(i + 1) =~= v@.take(i as int).push(v@[i as int]));
        i = i + 1;
    }
    assert(v@.take(v@.len() as int) =~= v@);
    s
}

/// Copies a string slice into an owned string.
pub fn to_owned_string(s: &str) -> (r: String)
    ensures
        r@ == s@,
{
    s.to_owned()
}

/// Whether two character sequences are equal.
pub fn chars_eq(a: &Vec<char>, b: &Vec<char>) -> (r: bool)
    ensures
        r == (a@ == b@),
{
    if a.len() != b.len() {
        return false;
    }
    let mut i: usize = 0;
    while i < a.len()
        invariant
            i <= a@.len(),
            a@.len() == b@.len(),
            forall|j: int| 0 <= j < i ==> a@[j] == b@[j],
        decreases a@.len() - i,
    {
        if a[i] != b[i] {
            return false;
        }
        i = i + 1;
    }
    assert(a@ =~= b@);
    true
}

/// Whether two strings are equal.
pub fn str_eq(a: &str, b: &str) -> (r: bool)
    ensures
        r == (a@ == b@),
{
    let va = chars_of(a);
    let vb = chars_of(b);
    chars_eq(&va, &vb)
}

/// The characters with Unicode's White_Space property.
pub open spec fn is_white_space(c: char) -> bool {
    ||| '\u{9}' <= c <= '\u{d}'
    ||| c == ' '
    ||| c == '\u{85}'
    ||| c == '\u{a0}'
    ||| c == '\u{1680}'
    ||| '\u{2000}' <= c <= '\u{200a}'
    ||| c == '\u{2028}'
    ||| c == '\u{2029}'
    ||| c == '\u{202f}'
    ||| c == '\u{205f}'
    ||| c == '\u{3000}'
}

/// Whether a character has Unicode's White_Space property.
pub fn white_space(c: char) -> (r: bool)
    ensures
        r == is_white_space(c),
{
    ('\u{9}' <= c && c <= '\u{d}') || c == ' ' || c == '\u{85}' || c == '\u{a0}' || c
        == '\u{1680}' || ('\u{2000}' <= c && c <= '\u{200a}') || c == '\u{2028}' || c
        == '\u{2029}' || c == '\u{202f}' || c == '\u{205f}' || c == '\u{3000}'
}

/// Index of the first character that is not white space (the length if there is none).
pub open spec fn trim_begin(s: Seq<char>) -> int
    decreases s.len(),
{
    if s.len() == 0 {
        0
    } else if is_white_space(s[0]) {
        1 + trim_begin(s.drop_first())
    } else {
        0
    }
}

/// One past the index of the last character that is not white space (zero if there is none).
pub open spec fn trim_end(s: Seq<char>) -> int
    decreases s.len(),
{
    if s.len() == 0 {
        0
    } else if is_white_space(s.last()) {
        trim_end(s.drop_last())
    } else {
        s.len() as int
    }
}

/// A sequence with leading and trailing white space removed.
pub open spec fn trimmed(s: Seq<char>) -> Seq<char> {
    if trim_begin(s) >= trim_end(s) {
        Seq::empty()
    } else {
        s.subrange(trim_begin(s), trim_end(s))
    }
}

/// Whether a sequence is empty or holds only white space.
pub open spec fn is_blank(s: Seq<char>) -> bool {
    forall|i: int| 0 <= i < s.len() ==> is_white_space(#[trigger] s[i])
}

proof fn lemma_trim_begin(s: Seq<char>)
    ensures
        0 <= trim_begin(s) <= s.len(),
        forall|i: int| 0 <= i < trim_begin(s) ==> is_white_space(#[trigger] s[i]),
        trim_begin(s) < s.len() ==> !is_white_space(s[trim_begin(s)]),
    decreases s.len(),
{
    if s.len() > 0 && is_white_space(s[0]) {
        lemma_trim_begin(s.drop_first());
        assert forall|i: int| 0 <= i < trim_begin(s) implies is_white_space(#[trigger] s[i]) by {
            if i > 0 {
                assert(s[i] == s.drop_first()[i - 1]);
            }
        }
    }
}

proof fn lemma_trim_end(s: Seq<char>)
    ensures
        0 <= trim_end(s) <= s.len(),
        forall|i: int| trim_end(s) <= i < s.len() ==> is_white_space(#[trigger] s[i]),
        trim_end(s) > 0 ==> !is_white_space(s[trim_end(s) - 1]),
    decreases s.len(),
{
    if s.len() > 0 && is_white_space(s.last()) {
        lemma_trim_end(s.drop_last());
        assert forall|i: int| trim_end(s) <= i < s.len() implies is_white_space(#[trigger] s[i]) by {
            if i < s.len() - 1 {
                assert(s[i] == s.drop_last()[i]);
            }
        }
    }
}

/// Trimmed sequences are empty exactly for blank input.
pub proof fn lemma_trimmed_empty(s: Seq<char>)
    ensures
        (trimmed(s).len() == 0) == is_blank(s),
{
    lemma_trim_begin(s);
    lemma_trim_end(s);
    if trimmed(s).len() == 0 {
        assert forall|i: int| 0 <= i < s.len() implies is_white_space(#[trigger] s[i]) by {
            if i >= trim_begin(s) && i < trim_end(s) {
                assert(false);
            }
        }
    } else if is_blank(s) {
        assert(is_white_space(s[trim_begin(s)]));
    }
}

/// A trimmed sequence that is not empty starts with a character that is not white space.
pub proof fn lemma_trimmed_bounds(s: Seq<char>)
    ensures
        trimmed(s).len() > 0 ==> !is_white_space(trimmed(s)[0]),
{
    lemma_trim_begin(s);
    lemma_trim_end(s);
}

/// Removes leading and trailing white space.
pub fn trim_chars(s: &Vec<char>) -> (r: Vec<char>)
    ensures
        r@ == trimmed(s@),
{
    proof {
        lemma_trim_begin(s@);
        lemma_trim_end(s@);
    }
    let mut begin: usize = 0;
    while begin < s.len() && white_space(s[begin])
        invariant
            begin <= s@.len(),
            forall|i: int| 0 <= i < begin ==> is_white_space(#[trigger] s@[i]),
        decreases s@.len() - begin,
    {
        begin = begin + 1;
    }
    let mut end: usize = s.len();
    while end > begin && white_space(s[end - 1])
        invariant
            begin <= end <= s@.len(),
            forall|i: int| end <= i < s@.len() ==> is_white_space(#[trigger] s@[i]),
            begin == s@.len() || !is_white_space(s@[begin as int]),
        decreases end,
    {
        end = end - 1;
    }
    let mut r: Vec<char> = Vec::new();
    let mut i: usize = begin;
    while i < end
        invariant
            begin <= i <= end,
            end <= s@.len(),
            r@ == s@.subrange(begin as int, i as int),
        decreases end - i,
    {
        r.push(s[i]);
        i = i + 1;
    }
    proof {
        let tb = trim_begin(s@);
        let te = trim_end(s@);
        if (begin as int) < tb {
            assert(is_white_space(s@[begin as int]));
        }
        if (begin as int) > tb {
            assert(is_white_space(s@[tb]));
        }
        if begin < s@.len() {
            if (end as int) < te {
                assert(is_white_space(s@[te - 1]));
            }
            if (end as int) > te {
                assert(end > begin);
                assert(is_white_space(s@[end - 1]));
            }
            assert(end as int == te);
        } else {
            if te > 0 {
                assert(is_white_space(s@[te - 1]));
            }
        }
        assert(r@ =~= trimmed(s@));
    }
    r
}

/// Trims a string slice.
pub fn trim_str(s: &str) -> (r: Vec<char>)
    ensures
        r@ == trimmed(s@),
{
    let v = chars_of(s);
    trim_chars(&v)
}

/// Whether a string slice is empty or only white space.
pub fn str_is_blank(s: &str) -> (r: bool)
    ensures
        r == is_blank(s@),
{
    let t = trim_str(s);
    proof {
        lemma_trimmed_empty(s@);
    }
    t.len() == 0
}

/// Whether `prefix` begins `s`.
pub open spec fn has_prefix(s: Seq<char>, prefix: Seq<char>) -> bool {
    prefix.len() <= s.len() && s.take(prefix.len() as int) == prefix
}

/// Whether `pattern` occurs in `s` at position `i`.
pub open spec fn matches_at(s: Seq<char>, pattern: Seq<char>, i: int) -> bool {
    0 <= i && i + pattern.len() <= s.len() && s.subrange(i, i + pattern.len()) == pattern
}

/// Whether `pattern` occurs in `s` at position `i`.
pub fn chars_match_at(s: &Vec<char>, pattern: &Vec<char>, i: usize) -> (r: bool)
    ensures
        r == matches_at(s@, pattern@, i as int),
{
    if i > s.len() || pattern.len() > s.len() - i {
        return false;
    }
    let mut j: usize = 0;
    while j < pattern.len()
        invariant
            j <= pattern@.len(),
            i + pattern@.len() <= s@.len(),
            s@.len() <= usize::MAX,
            forall|k: int| 0 <= k < j ==> s@[i + k] == pattern@[k],
        decreases pattern@.len() - j,
    {
        assert(i + j < s@.len());
        if s[i + j] != pattern[j] {
            return false;
        }
        j = j + 1;
    }
    assert(s@.subrange(i as int, i + pattern@.len()) =~= pattern@);
    true
}

/// Whether `prefix` begins `s`.
pub fn chars_starts_with(s: &Vec<char>, prefix: &Vec<char>) -> (r: bool)
    ensures
        r == has_prefix(s@, prefix@),
{
    let r = chars_match_at(s, prefix, 0);
    proof {
        if prefix@.len() <= s@.len() {
            assert(s@.subrange(0, prefix@.len() as int) =~= s@.take(prefix@.len() as int));
        }
    }
    r
}

/// Every non-overlapping occurrence of a non-empty `pattern`, scanning from the left,
/// replaced by `replacement`.
pub open spec fn replace_nonempty(s: Seq<char>, pattern: Seq<char>, replacement: Seq<char>) -> Seq<
    char,
>
    decreases s.len(),
{
    if s.len() == 0 || pattern.len() == 0 {
        s
    } else if matches_at(s, pattern, 0) {
        replacement + replace_nonempty(s.skip(pattern.len() as int), pattern, replacement)
    } else {
        seq![s[0]] + replace_nonempty(s.drop_first(), pattern, replacement)
    }
}

/// Replacing a non-empty pattern at the front of a text puts the replacement there and
/// goes on replacing in the rest: a pattern that occurs twice is replaced twice.
pub proof fn law_replace_front_and_continue(
    pattern: Seq<char>,
    rest: Seq<char>,
    replacement: Seq<char>,
)
    requires
        pattern.len() > 0,
    ensures
        replace_all(pattern + rest, pattern, replacement) == replacement + replace_all(
            rest,
            pattern,
            replacement,
        ),
{
    let s = pattern + rest;
    assert(s.subrange(0, pattern.len() as int) =~= pattern);
    assert(s.skip(pattern.len() as int) =~= rest);
}

/// Replacing a non-empty pattern that does not occur leaves a text as it is.
pub proof fn law_replace_absent_pattern(s: Seq<char>, pattern: Seq<char>, replacement: Seq<char>)
    requires
        pattern.len() > 0,
        forall|i: int| 0 <= i <= s.len() ==> !#[trigger] matches_at(s, pattern, i),
    ensures
        replace_all(s, pattern, replacement) == s,
    decreases s.len(),
{
    if s.len() > 0 {
        let t = s.drop_first();
        assert forall|i: int| 0 <= i <= t.len() implies !#[trigger] matches_at(t, pattern, i) by {
            if matches_at(t, pattern, i) {
                assert(s.subrange(i + 1, i + 1 + pattern.len()) =~= t.subrange(i, i + pattern.len()));
                assert(matches_at(s, pattern, i + 1));
            }
        }
        assert(!matches_at(s, pattern, 0));
        law_replace_absent_pattern(t, pattern, replacement);
        assert(seq![s[0]] + t =~= s);
    }
}

/// Replacing a non-empty pattern by itself leaves a text as it is.
pub proof fn law_replace_by_itself(s: Seq<char>, pattern: Seq<char>)
    requires
        pattern.len() > 0,
    ensures
        replace_all(s, pattern, pattern) == s,
    decreases s.len(),
{
    if s.len() > 0 {
        if matches_at(s, pattern, 0) {
            law_replace_by_itself(s.skip(pattern.len() as int), pattern);
            assert(s.subrange(0, pattern.len() as int) + s.skip(pattern.len() as int) =~= s);
        } else {
            law_replace_by_itself(s.drop_first(), pattern);
            assert(seq![s[0]] + s.drop_first() =~= s);
        }
    }
}

/// `replacement` before every character and at the end, which is what replacing an empty
/// pattern does.
pub open spec fn interleave(s: Seq<char>, replacement: Seq<char>) -> Seq<char>
    decreases s.len(),
{
    if s.len() == 0 {
        replacement
    } else {
        replacement + seq![s[0]] + interleave(s.drop_first(), replacement)
    }
}

/// `str::replace`: every non-overlapping occurrence of `pattern`, scanning from the left,
/// replaced by `replacement`.
pub open spec fn replace_all(s: Seq<char>, pattern: Seq<char>, replacement: Seq<char>) -> Seq<
    char,
> {
    if pattern.len() == 0 {
        interleave(s, replacement)
    } else {
        replace_nonempty(s, pattern, replacement)
    }
}

/// Appends characters to a vector.
fn extend_chars(out: &mut Vec<char>, more: &Vec<char>)
    ensures
        final(out)@ == old(out)@ + more@,
{
    let ghost start = out@;
    let mut i: usize = 0;
    while i < more.len()
        invariant
            i <= more@.len(),
            out@ == start + more@.take(i as int),
        decreases more@.len() - i,
    {
        out.push(more[i]);
        assert(more@.take(i + 1) =~= more@.take(i as int).push(more@[i as int]));
        i = i + 1;
    }
    assert(more@.take(more@.len() as int) =~= more@);
}

/// Replaces every occurrence of `pattern` in `s` by `replacement`, as `str::replace` does.
pub fn replace_chars(s: &Vec<char>, pattern: &Vec<char>, replacement: &Vec<char>) -> (r: Vec<
    char,
>)
    ensures
        r@ == replace_all(s@, pattern@, replacement@),
{
    let mut out: Vec<char> = Vec::new();
    let mut i: usize = 0;
    assert(s@.skip(0) =~= s@);
    if pattern.len() == 0 {
        while i < s.len()
            invariant
                i <= s@.len(),
                out@ + interleave(s@.skip(i as int), replacement@) == interleave(
                    s@,
                    replacement@,
                ),
            decreases s@.len() - i,
        {
            extend_chars(&mut out, replacement);
            out.push(s[i]);
            assert(s@.skip(i as int).drop_first() =~= s@.skip(i + 1));
            assert(out@ + interleave(s@.skip(i + 1), replacement@) =~= out@ + interleave(
                s@.skip(i + 1),
                replacement@,
            ));
            i = i + 1;
        }
        extend_chars(&mut out, replacement);
        assert(s@.skip(i as int) =~= Seq::<char>::empty());
        assert(out@ =~= interleave(s@, replacement@));
        return out;
    }
    assert(s@.skip(0) =~= s@);
    while i < s.len()
        invariant
            i <= s@.len(),
            pattern@.len() > 0,
            out@ + replace_nonempty(s@.skip(i as int), pattern@, replacement@) == replace_nonempty(
                s@,
                pattern@,
                replacement@,
            ),
        decreases s@.len() - i,
    {
        let ghost rest = s@.skip(i as int);
        if chars_match_at(s, pattern, i) {
            proof {
                assert(rest.subrange(0, pattern@.len() as int) =~= s@.subrange(
                    i as int,
                    i + pattern@.len(),
                ));
                assert(rest.skip(pattern@.len() as int) =~= s@.skip(i + pattern@.len()));
            }
            extend_chars(&mut out, replacement);
            i = i + pattern.len();
            assert(out@ + replace_nonempty(s@.skip(i as int), pattern@, replacement@) =~= out@
                + replace_nonempty(s@.skip(i as int), pattern@, replacement@));
        } else {
            proof {
                if matches_at(rest, pattern@, 0) {
                    assert(rest.subrange(0, pattern@.len() as int) =~= s@.subrange(
                        i as int,
                        i + pattern@.len(),
                    ));
                }
                assert(rest.drop_first() =~= s@.skip(i + 1));
            }
            out.push(s[i]);
            i = i + 1;
            assert(out@ + replace_nonempty(s@.skip(i as int), pattern@, replacement@) =~= out@
                + replace_nonempty(s@.skip(i as int), pattern@, replacement@));
        }
    }
    assert(s@.skip(i as int) =~= Seq::<char>::empty());
    assert(out@ =~= replace_nonempty(s@, pattern@, replacement@));
    out
}

/// Whether a character is an ASCII letter.
pub open spec fn is_ascii_letter(c: char) -> bool {
    ('a' <= c <= 'z') || ('A' <= c <= 'Z')
}

/// Whether a character is an ASCII digit.
pub open spec fn is_ascii_digit(c: char) -> bool {
    '0' <= c <= '9'
}

/// The ASCII upper-case form of a character; other characters are unchanged.
pub open spec fn ascii_upper(c: char) -> char {
    if 'a' <= c <= 'z' {
        ((c as u32) - 32) as char
    } else {
        c
    }
}

/// The ASCII lower-case form of a character; other characters are unchanged.
pub open spec fn ascii_lower(c: char) -> char {
    if 'A' <= c <= 'Z' {
        ((c as u32) + 32) as char
    } else {
        c
    }
}

/// Upper-cases an ASCII letter.
pub fn to_ascii_upper(c: char) -> (r: char)
    ensures
        r == ascii_upper(c),
{
    if 'a' <= c && c <= 'z' {
        let code: u32 = c as u32 - 32;
        assert(0x41 <= code <= 0x5a);
        char_from_code(code)
    } else {
        c
    }
}

/// Lower-cases an ASCII letter.
pub fn to_ascii_lower(c: char) -> (r: char)
    ensures
        r == ascii_lower(c),
{
    if 'A' <= c && c <= 'Z' {
        let code: u32 = c as u32 + 32;
        assert(0x61 <= code <= 0x7a);
        char_from_code(code)
    } else {
        c
    }
}

/// The character of an ASCII code.
fn char_from_code(code: u32) -> (r: char)
    requires
        code < 0x80,
    ensures
        r == code as char,
{
    let b: u8 = code as u8;
    b as char
}

/// The ASCII lower-case form of a sequence.
pub open spec fn lower_seq(s: Seq<char>) -> Seq<char> {
    s.map_values(|c: char| ascii_lower(c))
}

/// Lower-cases the ASCII letters of a sequence.
pub fn chars_to_ascii_lower(s: &Vec<char>) -> (r: Vec<char>)
    ensures
        r@ == lower_seq(s@),
{
    let mut r: Vec<char> = Vec::new();
    let mut i: usize = 0;
    while i < s.len()
        invariant
            i <= s@.len(),
            r@ == lower_seq(s@.take(i as int)),
        decreases s@.len() - i,
    {
        r.push(to_ascii_lower(s[i]));
        assert(lower_seq(s@.take(i + 1)) =~= lower_seq(s@.take(i as int)).push(
            ascii_lower(s@[i as int]),
        ));
        i = i + 1;
    }
    assert(s@.take(s@.len() as int) =~= s@);
    r
}

} // verus!

verus! {

/// Lexicographic order of character sequences by code point, which is the order of their
/// UTF-8 encodings.
pub open spec fn seq_lt(a: Seq<char>, b: Seq<char>) -> bool
    decreases a.len(),
{
    if a.len() == 0 {
        b.len() > 0
    } else if b.len() == 0 {
        false
    } else if a[0] != b[0] {
        (a[0] as int) < (b[0] as int)
    } else {
        seq_lt(a.drop_first(), b.drop_first())
    }
}

/// No sequence sorts before itself.
pub proof fn lemma_seq_lt_irreflexive(a: Seq<char>)
    ensures
        !seq_lt(a, a),
    decreases a.len(),
{
    if a.len() > 0 {
        lemma_seq_lt_irreflexive(a.drop_first());
    }
}

/// Sorting before is asymmetric.
pub proof fn lemma_seq_lt_asymmetric(a: Seq<char>, b: Seq<char>)
    ensures
        seq_lt(a, b) ==> !seq_lt(b, a),
    decreases a.len(),
{
    if a.len() > 0 && b.len() > 0 && a[0] == b[0] {
        lemma_seq_lt_asymmetric(a.drop_first(), b.drop_first());
    }
}

/// Sorting before is transitive.
pub proof fn lemma_seq_lt_transitive(a: Seq<char>, b: Seq<char>, c: Seq<char>)
    ensures
        seq_lt(a, b) && seq_lt(b, c) ==> seq_lt(a, c),
    decreases a.len(),
{
    if a.len() > 0 && b.len() > 0 && c.len() > 0 && a[0] == b[0] && b[0] == c[0] {
        lemma_seq_lt_transitive(a.drop_first(), b.drop_first(), c.drop_first());
    }
}

/// Of two different sequences one sorts before the other.
pub proof fn lemma_seq_lt_total(a: Seq<char>, b: Seq<char>)
    ensures
        a != b ==> seq_lt(a, b) || seq_lt(b, a),
    decreases a.len(),
{
    if a.len() > 0 && b.len() > 0 && a[0] == b[0] {
        lemma_seq_lt_total(a.drop_first(), b.drop_first());
        if a.drop_first() == b.drop_first() {
            assert(a =~= seq![a[0]] + a.drop_first());
            assert(b =~= seq![b[0]] + b.drop_first());
        }
    } else if a.len() == 0 && b.len() == 0 {
        assert(a =~= b);
    } else if a.len() > 0 && b.len() > 0 {
        assert((a[0] as int) != (b[0] as int));
    }
}

/// Whether `a` sorts strictly before `b`.
pub fn chars_lt(a: &Vec<char>, b: &Vec<char>) -> (r: bool)
    ensures
        r == seq_lt(a@, b@),
{
    let mut i: usize = 0;
    assert(a@.skip(0) =~= a@);
    assert(b@.skip(0) =~= b@);
    while i < a.len() && i < b.len() && a[i] == b[i]
        invariant
            i <= a@.len(),
            i <= b@.len(),
            seq_lt(a@.skip(i as int), b@.skip(i as int)) == seq_lt(a@, b@),
        decreases a@.len() - i,
    {
        assert(a@.skip(i as int).drop_first() =~= a@.skip(i + 1));
        assert(b@.skip(i as int).drop_first() =~= b@.skip(i + 1));
        i = i + 1;
    }
    let ghost sa = a@.skip(i as int);
    let ghost sb = b@.skip(i as int);
    if i == a.len() {
        assert(sa.len() == 0);
        i < b.len()
    } else if i == b.len() {
        assert(sb.len() == 0);
        false
    } else {
        assert(sa[0] == a@[i as int] && sb[0] == b@[i as int]);
        a[i] < b[i]
    }
}

/// Whether string `a` sorts strictly before string `b`.
pub fn str_lt(a: &str, b: &str) -> (r: bool)
    ensures
        r == seq_lt(a@, b@),
{
    let va = chars_of(a);
    let vb = chars_of(b);
    chars_lt(&va, &vb)
}

/// Copies a string.
pub fn clone_string(s: &String) -> (r: String)
    ensures
        r@ == s@,
{
    s.clone()
}

/// Appends the characters of a string slice.
pub fn append_str(buf: &mut Vec<char>, s: &str)
    ensures
        final(buf)@ == old(buf)@ + s@,
{
    let v = chars_of(s);
    append_chars(buf, &v);
}

/// Appends characters.
pub fn append_chars(buf: &mut Vec<char>, v: &Vec<char>)
    ensures
        final(buf)@ == old(buf)@ + v@,
{
    let ghost start = buf@;
    let mut i: usize = 0;
    while i < v.len()
        invariant
            i <= v@.len(),
            buf@ == start + v@.take(i as int),
        decreases v@.len() - i,
    {
        buf.push(v[i]);
        assert(v@.take(i + 1) =~= v@.take(i as int).push(v@[i as int]));
        i = i + 1;
    }
    assert(v@.take(v@.len() as int) =~= v@);
}

/// The character of a decimal digit.
pub open spec fn digit_char(d: int) -> char {
    if d == 0 {
        '0'
    } else if d == 1 {
        '1'
    } else if d == 2 {
        '2'
    } else if d == 3 {
        '3'
    } else if d == 4 {
        '4'
    } else if d == 5 {
        '5'
    } else if d == 6 {
        '6'
    } else if d == 7 {
        '7'
    } else if d == 8 {
        '8'
    } else {
        '9'
    }
}

/// The decimal representation of a natural number, without leading zeros.
pub open spec fn decimal(n: nat) -> Seq<char>
    decreases n,
{
    if n < 10 {
        seq![digit_char(n as int)]
    } else {
        decimal(n / 10).push(digit_char((n % 10) as int))
    }
}

/// The character of a decimal digit.
fn digit(d: u64) -> (c: char)
    requires
        d < 10,
    ensures
        c == digit_char(d as int),
{
    if d == 0 {
        '0'
    } else if d == 1 {
        '1'
    } else if d == 2 {
        '2'
    } else if d == 3 {
        '3'
    } else if d == 4 {
        '4'
    } else if d == 5 {
        '5'
    } else if d == 6 {
        '6'
    } else if d == 7 {
        '7'
    } else if d == 8 {
        '8'
    } else {
        '9'
    }
}

/// Appends the decimal representation of a number.
pub fn append_decimal(buf: &mut Vec<char>, n: u64)
    ensures
        final(buf)@ == old(buf)@ + decimal(n as nat),
{
    let mut rev: Vec<char> = Vec::new();
    let mut m: u64 = n;
    loop
        invariant_except_break
            m > 0 || rev@.len() == 0,
            m > 0 ==> decimal(n as nat) == decimal(m as nat) + rev@.reverse(),
            rev@.len() == 0 ==> m == n,
        ensures
            decimal(n as nat) == rev@.reverse(),
        decreases m,
    {
        let d = m % 10;
        let c = digit(d);
        let ghost old_rev = rev@;
        rev.push(c);
        proof {
            assert(rev@.reverse() =~= seq![c] + old_rev.reverse());
            if m == n && old_rev.len() == 0 {
                assert(old_rev.reverse() =~= Seq::<char>::empty());
            }
        }
        let next = m / 10;
        if next == 0 {
            proof {
                if old_rev.len() == 0 {
                    assert(old_rev.reverse() =~= Seq::<char>::empty());
                }
                assert(decimal(m as nat) == seq![c]);
                assert(decimal(n as nat) == seq![c] + old_rev.reverse());
            }
            break;
        }
        proof {
            assert(decimal(m as nat) == decimal(next as nat).push(c));
            assert(decimal(n as nat) =~= decimal(next as nat) + rev@.reverse());
        }
        m = next;
    }
    let ghost start = buf@;
    let mut i: usize = rev.len();
    while i > 0
        invariant
            i <= rev@.len(),
            buf@ == start + rev@.reverse().take(rev@.len() - i),
        decreases i,
    {
        i = i - 1;
        buf.push(rev[i]);
        proof {
            let k = rev@.len() - i;
            assert(rev@.reverse().take(k) =~= rev@.reverse().take(k - 1).push(rev@[i as int]));
        }
    }
    assert(rev@.reverse().take(rev@.len() as int) =~= rev@.reverse());
}

/// The decimal representation of a number.
pub fn decimal_string(n: u64) -> (r: String)
    ensures
        r@ == decimal(n as nat),
{
    let mut buf: Vec<char> = Vec::new();
    append_decimal(&mut buf, n);
    assert(buf@ =~= decimal(n as nat));
    string_from_chars(&buf)
}

} // verus!
