//! Character-level primitives on which line parsing is built.
//!
//! Text is handled as a sequence of Unicode scalar values. Every executable
//! function here works on a slice of `char` and is specified over the slice's
//! view, a `Seq<char>`.

use vstd::prelude::*;
use vstd::slice::slice_subrange;

verus! {

/// `String::push` appends one character to the end of the string.
pub assume_specification[ String::push ](s: &mut String, c: char)
    ensures
        final(s)@ == old(s)@.push(c),
;

/// The characters of `s`, in order.
pub fn chars_of(s: &str) -> (v: Vec<char>)
    ensures
        v@ == s@,
{
    let mut v: Vec<char> = Vec::new();
    let it = s.chars();
    for c in iter: it
        invariant
            v@ == iter.seq().take(iter.index() as int),
    {
        v.push(c);
    }
    v
}

/// The string made of the characters of `s`.
pub fn string_of(s: &[char]) -> (r: String)
    ensures
        r@ == s@,
{
    let mut r = String::new();
    let mut i: usize = 0;
    while i < s.len()
        invariant
            i <= s.len(),
            r@ == s@.take(i as int),
        decreases s.len() - i,
    {
        r.push(s[i]);
        i += 1;
    }
    r
}

/// Whether `c` has the Unicode property `White_Space`.
pub open spec fn is_whitespace(c: char) -> bool {
    ||| '\u{9}' <= c <= '\u{D}'
    ||| c == ' '
    ||| c == '\u{85}'
    ||| c == '\u{A0}'
    ||| c == '\u{1680}'
    ||| '\u{2000}' <= c <= '\u{200A}'
    ||| c == '\u{2028}'
    ||| c == '\u{2029}'
    ||| c == '\u{202F}'
    ||| c == '\u{205F}'
    ||| c == '\u{3000}'
}

/// Whether `c` is white space.
pub fn whitespace(c: char) -> (b: bool)
    ensures
        b == is_whitespace(c),
{
    (c >= '\u{9}' && c <= '\u{D}') || c == ' ' || c == '\u{85}' || c == '\u{A0}' || c
        == '\u{1680}' || (c >= '\u{2000}' && c <= '\u{200A}') || c == '\u{2028}' || c
        == '\u{2029}' || c == '\u{202F}' || c == '\u{205F}' || c == '\u{3000}'
}

/// Whether `c` is one of the decimal digits `0` to `9`.
pub open spec fn is_digit(c: char) -> bool {
    '0' <= c <= '9'
}

/// Whether `pat` stands in `s` at index `i`.
pub open spec fn occurs_at(s: Seq<char>, pat: Seq<char>, i: int) -> bool {
    &&& 0 <= i
    &&& i + pat.len() <= s.len()
    &&& s.subrange(i, i + pat.len()) == pat
}

/// Whether `pat` is a contiguous part of `s`.
pub open spec fn contains_str(s: Seq<char>, pat: Seq<char>) -> bool {
    exists|i: int| occurs_at(s, pat, i)
}

/// Whether `pat` stands in `s` at index `at`.
pub fn matches_at(s: &[char], at: usize, pat: &str) -> (b: bool)
    ensures
        b == occurs_at(s@, pat@, at as int),
{
    if at > s.len() {
        return false;
    }
    let mut k: usize = 0;
    let it = pat.chars();
    for c in iter: it
        invariant
            iter.seq() == pat@,
            k == iter.index(),
            at + k <= s.len(),
            s@.subrange(at as int, at + k) == pat@.take(k as int),
    {
        if at + k >= s.len() || s[at + k] != c {
            proof {
                if at + pat@.len() <= s@.len() {
                    assert(s@.subrange(at as int, at + pat@.len())[k as int] == s@[at + k]);
                }
            }
            return false;
        }
        assert(s@.subrange(at as int, at + k + 1) == s@.subrange(at as int, at + k).push(
            s@[at + k],
        ));
        assert(pat@.take(k + 1) == pat@.take(k as int).push(pat@[k as int]));
        k += 1;
    }
    assert(pat@.take(k as int) == pat@);
    true
}

/// Whether `pat` is a contiguous part of `s`.
pub fn contains(s: &[char], pat: &str) -> (b: bool)
    ensures
        b == contains_str(s@, pat@),
{
    let mut i: usize = 0;
    loop
        invariant_except_break
            i <= s.len(),
            forall|j: int| 0 <= j < i ==> !occurs_at(s@, pat@, j),
        ensures
            forall|j: int| 0 <= j <= s.len() ==> !occurs_at(s@, pat@, j),
        decreases s.len() - i,
    {
        if matches_at(s, i, pat) {
            return true;
        }
        if i == s.len() {
            break;
        }
        i += 1;
    }
    false
}

/// A class of characters that a scan runs over.
#[derive(Clone, Copy)]
pub enum CharClass {
    /// The white-space characters.
    Space,
    /// The characters that are not white space.
    NonSpace,
    /// Every character but the given one.
    Except(char),
    /// The decimal digits `0` to `9`.
    Digit,
}

impl CharClass {
/// Whether `c` is of the class.
    pub open spec fn has(self, c: char) -> bool {
        match self {
            CharClass::Space => is_whitespace(c),
            CharClass::NonSpace => !is_whitespace(c),
            CharClass::Except(x) => c != x,
            CharClass::Digit => is_digit(c),
        }
    }

/// Whether `c` is of the class.
    pub fn holds(&self, c: char) -> (b: bool)
        ensures
            b == self.has(c),
    {
        match self {
            CharClass::Space => whitespace(c),
            CharClass::NonSpace => !whitespace(c),
            CharClass::Except(x) => c != *x,
            CharClass::Digit => c >= '0' && c <= '9',
        }
    }
}

/// The length of the longest prefix of `s` made of characters of `class`.
pub open spec fn prefix_len(s: Seq<char>, class: CharClass) -> int
    decreases s.len(),
{
    if s.len() > 0 && class.has(s[0]) {
        1 + prefix_len(s.drop_first(), class)
    } else {
        0
    }
}

/// The length of the longest suffix of `s` made of characters of `class`.
pub open spec fn suffix_len(s: Seq<char>, class: CharClass) -> int
    decreases s.len(),
{
    if s.len() > 0 && class.has(s.last()) {
        1 + suffix_len(s.drop_last(), class)
    } else {
        0
    }
}

/// `n` characters of `class` open `s`, and the next one, if any, is not of `class`.
pub open spec fn is_prefix_len(s: Seq<char>, class: CharClass, n: int) -> bool {
    &&& 0 <= n <= s.len()
    &&& forall|j: int| 0 <= j < n ==> class.has(#[trigger] s[j])
    &&& n < s.len() ==> !class.has(s[n])
}

/// `n` characters of `class` close `s`, and the one before them, if any, is not of `class`.
pub open spec fn is_suffix_len(s: Seq<char>, class: CharClass, n: int) -> bool {
    &&& 0 <= n <= s.len()
    &&& forall|j: int| s.len() - n <= j < s.len() ==> class.has(#[trigger] s[j])
    &&& n < s.len() ==> !class.has(s[s.len() - n - 1])
}

/// The longest prefix of `s` of `class` is `s` up to its first character that
/// is not of `class`.
pub proof fn lemma_prefix_len(s: Seq<char>, class: CharClass)
    ensures
        is_prefix_len(s, class, prefix_len(s, class)),
    decreases s.len(),
{
    if s.len() > 0 && class.has(s[0]) {
        let t = s.drop_first();
        lemma_prefix_len(t, class);
        let n = prefix_len(t, class);
        assert forall|j: int| 0 <= j < n + 1 implies class.has(#[trigger] s[j]) by {
            if j > 0 {
                assert(s[j] == t[j - 1]);
            }
        }
        if n + 1 < s.len() {
            assert(s[n + 1] == t[n]);
        }
    }
}

/// Only one length is that of the longest prefix of `s` of `class`.
pub proof fn lemma_prefix_len_unique(s: Seq<char>, class: CharClass, n: int)
    requires
        is_prefix_len(s, class, n),
    ensures
        prefix_len(s, class) == n,
{
    lemma_prefix_len(s, class);
    let m = prefix_len(s, class);
    if m < n {
        assert(class.has(s[m]));
    } else if n < m {
        assert(class.has(s[n]));
    }
}

/// The longest suffix of `s` of `class` is `s` after its last character that
/// is not of `class`.
pub proof fn lemma_suffix_len(s: Seq<char>, class: CharClass)
    ensures
        is_suffix_len(s, class, suffix_len(s, class)),
    decreases s.len(),
{
    if s.len() > 0 && class.has(s.last()) {
        let t = s.drop_last();
        lemma_suffix_len(t, class);
        let n = suffix_len(t, class);
        assert forall|j: int| s.len() - (n + 1) <= j < s.len() implies class.has(
            #[trigger] s[j],
        ) by {
            if j < s.len() - 1 {
                assert(s[j] == t[j]);
            }
        }
        if n + 1 < s.len() {
            assert(s[s.len() - (n + 1) - 1] == t[t.len() - n - 1]);
        }
    }
}

/// Only one length is that of the longest suffix of `s` of `class`.
pub proof fn lemma_suffix_len_unique(s: Seq<char>, class: CharClass, n: int)
    requires
        is_suffix_len(s, class, n),
    ensures
        suffix_len(s, class) == n,
{
    lemma_suffix_len(s, class);
    let m = suffix_len(s, class);
    if m < n {
        assert(class.has(s[s.len() - m - 1]));
    } else if n < m {
        assert(class.has(s[s.len() - n - 1]));
    }
}

/// The number of characters of `class` that open `s`.
pub fn scan(s: &[char], class: CharClass) -> (n: usize)
    ensures
        n == prefix_len(s@, class),
        n <= s.len(),
{
    let mut n: usize = 0;
    while n < s.len() && class.holds(s[n])
        invariant
            n <= s.len(),
            forall|j: int| 0 <= j < n ==> class.has(#[trigger] s@[j]),
        decreases s.len() - n,
    {
        n += 1;
    }
    proof {
        lemma_prefix_len_unique(s@, class, n as int);
    }
    n
}

/// The number of characters of `class` that close `s`.
pub fn scan_back(s: &[char], class: CharClass) -> (n: usize)
    ensures
        n == suffix_len(s@, class),
        n <= s.len(),
{
    let mut n: usize = 0;
    while n < s.len() && class.holds(s[s.len() - n - 1])
        invariant
            n <= s.len(),
            forall|j: int| s.len() - n <= j < s.len() ==> class.has(#[trigger] s@[j]),
        decreases s.len() - n,
    {
        n += 1;
    }
    proof {
        lemma_suffix_len_unique(s@, class, n as int);
    }
    n
}

/// The index of the first `c` in `s`, or the length of `s` where it holds none.
pub open spec fn index_of(s: Seq<char>, c: char) -> int {
    prefix_len(s, CharClass::Except(c))
}

/// What stands before the first `c` in `s`, and what stands after it.
pub open spec fn split_once(s: Seq<char>, c: char) -> Option<(Seq<char>, Seq<char>)> {
    let at = index_of(s, c);
    if 0 <= at < s.len() {
        Some((s.take(at), s.skip(at + 1)))
    } else {
        None
    }
}

/// Cuts `s` at its first `c`, if it holds one.
pub fn cut<'a>(s: &'a [char], c: char) -> (r: Option<(&'a [char], &'a [char])>)
    ensures
        match r {
            Some((before, after)) => split_once(s@, c) == Some((before@, after@)),
            None => split_once(s@, c).is_none(),
        },
{
    let at = scan(s, CharClass::Except(c));
    if at < s.len() {
        Some((slice_subrange(s, 0, at), slice_subrange(s, at + 1, s.len())))
    } else {
        None
    }
}

/// `s` without the white space that opens and closes it.
pub open spec fn trimmed(s: Seq<char>) -> Seq<char> {
    let t = s.skip(prefix_len(s, CharClass::Space));
    t.take(t.len() - suffix_len(t, CharClass::Space))
}

/// `s` without the white space that opens and closes it.
pub fn trim(s: &[char]) -> (r: &[char])
    ensures
        r@ == trimmed(s@),
{
    let a = scan(s, CharClass::Space);
    let t = slice_subrange(s, a, s.len());
    assert(t@ == s@.skip(a as int));
    let b = scan_back(t, CharClass::Space);
    slice_subrange(t, 0, t.len() - b)
}

/// The view of each item of `v`.
pub open spec fn views<T: View>(v: Seq<T>) -> Seq<T::V> {
    v.map_values(|x: T| x@)
}

/// `l` without the carriage return that closes it, if one does.
pub open spec fn strip_cr(l: Seq<char>) -> Seq<char> {
    if l.len() > 0 && l.last() == '\r' {
        l.drop_last()
    } else {
        l
    }
}

/// The lines of `s`. A line ends at a line feed, or at the end of `s`; the
/// line feed is no part of it, nor is a carriage return that stands directly
/// before the line feed. Text after the last line feed is a line unless it is
/// empty.
pub open spec fn lines(s: Seq<char>) -> Seq<Seq<char>>
    decreases s.len(),
{
    if s.len() == 0 {
        Seq::empty()
    } else {
        let n = index_of(s, '\n');
        if 0 <= n < s.len() {
            seq![strip_cr(s.take(n))] + lines(s.skip(n + 1))
        } else {
            seq![s]
        }
    }
}

/// The lines of `s`.
pub fn split_lines(s: &[char]) -> (v: Vec<&[char]>)
    ensures
        views(v@) == lines(s@),
{
    let mut v: Vec<&[char]> = Vec::new();
    let mut pos: usize = 0;
    assert(s@.skip(0) == s@ && views(v@) + lines(s@) == lines(s@));
    while pos < s.len()
        invariant
            pos <= s.len(),
            lines(s@) == views(v@) + lines(s@.skip(pos as int)),
        decreases s.len() - pos,
    {
        let rest = slice_subrange(s, pos, s.len());
        assert(rest@ == s@.skip(pos as int));
        let n = scan(rest, CharClass::Except('\n'));
        let ghost before = views(v@);
        if n < rest.len() {
            let line = if n > 0 && rest[n - 1] == '\r' {
                slice_subrange(rest, 0, n - 1)
            } else {
                slice_subrange(rest, 0, n)
            };
            assert(line@ == strip_cr(rest@.take(n as int)));
            v.push(line);
            assert(rest@.skip(n + 1) == s@.skip(pos + n + 1));
            pos = pos + n + 1;
        } else {
            v.push(rest);
            assert(lines(rest@) == seq![rest@]);
            pos = s.len();
            assert(lines(s@.skip(pos as int)) == Seq::<Seq<char>>::empty());
        }
        assert(views(v@) == before.push(v@.last()@));
    }
    assert(s@.skip(pos as int).len() == 0);
    v
}

/// The words of `s`: its longest runs of characters that are not white space,
/// in order.
pub open spec fn tokens(s: Seq<char>) -> Seq<Seq<char>>
    decreases s.len(),
{
    let a = prefix_len(s, CharClass::Space);
    if 0 <= a < s.len() {
        let b = prefix_len(s.skip(a), CharClass::NonSpace);
        if 0 < b <= s.len() - a {
            seq![s.subrange(a, a + b)] + tokens(s.skip(a + b))
        } else {
            Seq::empty()
        }
    } else {
        Seq::empty()
    }
}

/// Whether `s` holds no white space.
pub open spec fn is_word(s: Seq<char>) -> bool {
    forall|i: int| 0 <= i < s.len() ==> !is_whitespace(#[trigger] s[i])
}

/// Where `s` opens with `a` characters of white space and then `b` that
/// are none, and white space or the end follows, those `b` characters are
/// the first word of `s`.
pub proof fn lemma_first_token(s: Seq<char>, a: int, b: int)
    requires
        0 <= a,
        0 < b,
        a + b <= s.len(),
        forall|j: int| 0 <= j < a ==> is_whitespace(#[trigger] s[j]),
        forall|j: int| a <= j < a + b ==> !is_whitespace(#[trigger] s[j]),
        a + b == s.len() || is_whitespace(s[a + b]),
    ensures
        tokens(s) == seq![s.subrange(a, a + b)] + tokens(s.skip(a + b)),
{
    lemma_prefix_len_unique(s, CharClass::Space, a);
    let r = s.skip(a);
    assert forall|j: int| 0 <= j < b implies CharClass::NonSpace.has(#[trigger] r[j]) by {
        assert(r[j] == s[a + j]);
    }
    if b < r.len() {
        assert(r[b] == s[a + b]);
    }
    lemma_prefix_len_unique(r, CharClass::NonSpace, b);
}

/// The words of `s`.
pub fn split_whitespace(s: &[char]) -> (v: Vec<&[char]>)
    ensures
        views(v@) == tokens(s@),
{
    let mut v: Vec<&[char]> = Vec::new();
    let mut pos: usize = 0;
    assert(s@.skip(0) == s@ && views(v@) + tokens(s@) == tokens(s@));
    loop
        invariant_except_break
            pos <= s.len(),
            tokens(s@) == views(v@) + tokens(s@.skip(pos as int)),
        ensures
            tokens(s@) == views(v@),
        decreases s.len() - pos,
    {
        let rest = slice_subrange(s, pos, s.len());
        assert(rest@ == s@.skip(pos as int));
        let a = scan(rest, CharClass::Space);
        if a == rest.len() {
            break;
        }
        let word_on = slice_subrange(rest, a, rest.len());
        assert(word_on@ == rest@.skip(a as int));
        let b = scan(word_on, CharClass::NonSpace);
        proof {
            lemma_prefix_len(rest@, CharClass::Space);
            lemma_prefix_len(word_on@, CharClass::NonSpace);
            assert(word_on@[0] == rest@[a as int]);
        }
        let ghost before = views(v@);
        v.push(slice_subrange(rest, a, a + b));
        assert(views(v@) == before.push(rest@.subrange(a as int, a + b)));
        assert(rest@.skip(a + b) == s@.skip(pos + a + b));
        pos = pos + a + b;
    }
    v
}

/// The index of the first place at which `pat` stands in `s`, or the length
/// of `s` where it stands nowhere.
pub open spec fn find_str(s: Seq<char>, pat: Seq<char>) -> int
    decreases s.len(),
{
    if s.len() == 0 || occurs_at(s, pat, 0) {
        0
    } else {
        1 + find_str(s.drop_first(), pat)
    }
}

/// `pat` stands at `n` in `s` and nowhere before, or nowhere at all and `n`
/// is the length of `s`.
pub open spec fn is_find_str(s: Seq<char>, pat: Seq<char>, n: int) -> bool {
    &&& 0 <= n <= s.len()
    &&& forall|j: int| 0 <= j < n ==> !occurs_at(s, pat, j)
    &&& n < s.len() ==> occurs_at(s, pat, n)
}

/// `pat` stands at `j` in `s` without its first `k` characters where it
/// stands at `k + j` in `s`.
pub proof fn lemma_occurs_shift(s: Seq<char>, pat: Seq<char>, k: int, j: int)
    requires
        0 <= k <= s.len(),
        0 <= j,
    ensures
        occurs_at(s.skip(k), pat, j) == occurs_at(s, pat, k + j),
{
    if j + pat.len() <= s.len() - k {
        assert(s.skip(k).subrange(j, j + pat.len()) == s.subrange(k + j, k + j + pat.len()));
    }
}

/// `find_str` gives the first place at which `pat` stands in `s`.
pub proof fn lemma_find_str(s: Seq<char>, pat: Seq<char>)
    ensures
        is_find_str(s, pat, find_str(s, pat)),
    decreases s.len(),
{
    if !(s.len() == 0 || occurs_at(s, pat, 0)) {
        let t = s.drop_first();
        lemma_find_str(t, pat);
        let n = find_str(t, pat);
        assert forall|j: int| 0 <= j < n + 1 implies !occurs_at(s, pat, j) by {
            if j > 0 {
                lemma_occurs_shift(s, pat, 1, j - 1);
            }
        }
        if n + 1 < s.len() {
            lemma_occurs_shift(s, pat, 1, n);
        }
    }
}

/// Only one index is the first place at which `pat` stands in `s`.
pub proof fn lemma_find_str_unique(s: Seq<char>, pat: Seq<char>, n: int)
    requires
        is_find_str(s, pat, n),
    ensures
        find_str(s, pat) == n,
{
    lemma_find_str(s, pat);
}

/// The index of the first place at which `pat` stands in `s`, or the length
/// of `s`.
pub fn find(s: &[char], pat: &str) -> (n: usize)
    ensures
        n == find_str(s@, pat@),
        n <= s.len(),
{
    let mut n: usize = 0;
    while n < s.len() && !matches_at(s, n, pat)
        invariant
            n <= s.len(),
            forall|j: int| 0 <= j < n ==> !occurs_at(s@, pat@, j),
        decreases s.len() - n,
    {
        n += 1;
    }
    proof {
        lemma_find_str_unique(s@, pat@, n as int);
    }
    n
}

/// The parts of `s` that the occurrences of `pat` separate, in order. The
/// occurrences are taken from the left and do not overlap.
pub open spec fn split_str(s: Seq<char>, pat: Seq<char>) -> Seq<Seq<char>>
    decreases s.len(),
{
    let n = find_str(s, pat);
    if pat.len() > 0 && 0 <= n && n + pat.len() <= s.len() {
        seq![s.take(n)] + split_str(s.skip(n + pat.len()), pat)
    } else {
        seq![s]
    }
}

/// The parts of `s` that the occurrences of `pat` separate.
pub fn split<'a>(s: &'a [char], pat: &str) -> (v: Vec<&'a [char]>)
    ensures
        views(v@) == split_str(s@, pat@),
{
    let width = pat.unicode_len();
    let mut v: Vec<&[char]> = Vec::new();
    let mut pos: usize = 0;
    assert(s@.skip(0) == s@ && views(v@) + split_str(s@, pat@) == split_str(s@, pat@));
    loop
        invariant_except_break
            pos <= s.len(),
            width == pat@.len(),
            split_str(s@, pat@) == views(v@) + split_str(s@.skip(pos as int), pat@),
        ensures
            split_str(s@, pat@) == views(v@),
        decreases s.len() - pos,
    {
        let rest = slice_subrange(s, pos, s.len());
        assert(rest@ == s@.skip(pos as int));
        let n = find(rest, pat);
        let ghost before = views(v@);
        proof {
            lemma_find_str(rest@, pat@);
        }
        if width > 0 && n < rest.len() {
            v.push(slice_subrange(rest, 0, n));
            assert(views(v@) == before.push(rest@.take(n as int)));
            assert(rest@.skip(n + width) == s@.skip(pos + n + width));
            pos = pos + n + width;
        } else {
            v.push(rest);
            assert(views(v@) == before.push(rest@));
            break;
        }
    }
    v
}

/// Whether `pat` closes `s`.
pub open spec fn ends_with(s: Seq<char>, pat: Seq<char>) -> bool {
    occurs_at(s, pat, s.len() - pat.len())
}

/// `s` without the copies of `pat` that close it, one after another.
pub open spec fn trim_end_matches(s: Seq<char>, pat: Seq<char>) -> Seq<char>
    decreases s.len(),
{
    if pat.len() > 0 && ends_with(s, pat) {
        trim_end_matches(s.take(s.len() - pat.len()), pat)
    } else {
        s
    }
}

/// `s` without the copies of `pat` that close it.
pub fn strip_suffixes<'a>(s: &'a [char], pat: &str) -> (r: &'a [char])
    ensures
        r@ == trim_end_matches(s@, pat@),
{
    let width = pat.unicode_len();
    if width == 0 {
        return s;
    }
    let mut end: usize = s.len();
    assert(s@.take(end as int) == s@);
    while end >= width && matches_at(s, end - width, pat)
        invariant
            end <= s.len(),
            width == pat@.len(),
            width > 0,
            trim_end_matches(s@, pat@) == trim_end_matches(s@.take(end as int), pat@),
        decreases end,
    {
        assert(s@.take(end as int).subrange(end - width, end as int) == s@.subrange(
            end - width,
            end as int,
        ));
        assert(s@.take(end as int).take(end - width) == s@.take(end - width));
        end = end - width;
    }
    proof {
        if end >= width {
            assert(s@.take(end as int).subrange(end - width, end as int) == s@.subrange(
                end - width,
                end as int,
            ));
        }
    }
    slice_subrange(s, 0, end)
}

/// What follows `pat` in `s`, where `pat` opens `s`.
pub open spec fn strip_prefix(s: Seq<char>, pat: Seq<char>) -> Option<Seq<char>> {
    if occurs_at(s, pat, 0) {
        Some(s.skip(pat.len() as int))
    } else {
        None
    }
}

/// What follows `pat` in `s`, where `pat` opens `s`.
pub fn without_prefix<'a>(s: &'a [char], pat: &str) -> (r: Option<&'a [char]>)
    ensures
        match r {
            Some(t) => strip_prefix(s@, pat@) == Some(t@),
            None => strip_prefix(s@, pat@).is_none(),
        },
{
    if matches_at(s, 0, pat) {
        let width = pat.unicode_len();
        Some(slice_subrange(s, width, s.len()))
    } else {
        None
    }
}

} // verus!
