//! Character-level text helpers with exact specifications.
use vstd::prelude::*;

verus! {

broadcast use vstd::string::group_string_axioms;

/// `needle` occurs in `hay` starting at position `i`.
pub open spec fn occurs_at(hay: Seq<char>, needle: Seq<char>, i: int) -> bool {
    0 <= i && i + needle.len() <= hay.len() && hay.subrange(i, i + needle.len()) == needle
}

/// `needle` occurs somewhere in `hay` (the empty needle occurs everywhere).
pub open spec fn has_substring(hay: Seq<char>, needle: Seq<char>) -> bool {
    exists|i: int| occurs_at(hay, needle, i)
}

/// `prefix` is an initial segment of `s`.
pub open spec fn starts_with(s: Seq<char>, prefix: Seq<char>) -> bool {
    occurs_at(s, prefix, 0)
}

/// `suffix` is a final segment of `s`.
pub open spec fn ends_with(s: Seq<char>, suffix: Seq<char>) -> bool {
    occurs_at(s, suffix, s.len() - suffix.len())
}

/// What `str::to_lowercase` returns for a string with these characters:
/// the Unicode lowercase mapping, where a capital sigma maps by its context
/// (at the end of a word it becomes a final sigma).
pub uninterp spec fn lowercase(s: Seq<char>) -> Seq<char>;

/// Every character is ASCII.
pub open spec fn is_ascii_text(s: Seq<char>) -> bool {
    forall|i: int| 0 <= i < s.len() ==> (#[trigger] s[i] as u32) < 128
}

/// `c` with an ASCII capital letter made small.
pub open spec fn ascii_lower_char(c: char) -> char {
    if 65 <= (c as u32) <= 90 {
        ((c as u32) + 32) as char
    } else {
        c
    }
}

/// `c` with an ASCII small letter made capital.
pub open spec fn ascii_upper_char(c: char) -> char {
    if 97 <= (c as u32) <= 122 {
        ((c as u32) - 32) as char
    } else {
        c
    }
}

/// The text with ASCII capitals made small and every other character kept.
pub open spec fn ascii_lower(s: Seq<char>) -> Seq<char> {
    s.map_values(|c: char| ascii_lower_char(c))
}

/// The text with ASCII small letters made capital and every other character kept.
pub open spec fn ascii_upper(s: Seq<char>) -> Seq<char> {
    s.map_values(|c: char| ascii_upper_char(c))
}

/// Making ASCII text capital and then small gives the same as making it
/// small: case does not survive `ascii_lower`.
pub proof fn lemma_ascii_case_folds(s: Seq<char>)
    requires
        is_ascii_text(s),
    ensures
        is_ascii_text(ascii_upper(s)),
        ascii_lower(ascii_upper(s)) == ascii_lower(s),
{
    assert forall|i: int| 0 <= i < s.len() implies (#[trigger] ascii_upper(s)[i] as u32) < 128
        && ascii_lower(ascii_upper(s))[i] == ascii_lower(s)[i] by {
        let c = s[i];
        assert(ascii_upper(s)[i] == ascii_upper_char(c));
        assert(ascii_lower(s)[i] == ascii_lower_char(c));
        assert((c as u32) < 128);
    }
    assert(ascii_lower(ascii_upper(s)) =~= ascii_lower(s));
}

/// Calls `str::to_lowercase`. Claimed: the result is `lowercase` of the
/// argument's characters, and on ASCII text it maps `A`-`Z` to `a`-`z` and
/// keeps every other character (the Unicode lowercase mapping of ASCII);
/// nothing more about the mapping is stated here.
#[verifier::external_body]
pub(crate) fn to_lowercase(s: &str) -> (r: String)
    ensures
        r@ == lowercase(s@),
        is_ascii_text(s@) ==> r@ == ascii_lower(s@),
{
    s.to_lowercase()
}

/// Calls `String::push`. Claimed, as its documentation says: the character
/// is appended to the end of the string.
#[verifier::external_body]
pub(crate) fn push_char(s: &mut String, c: char)
    ensures
        final(s)@ == old(s)@.push(c),
{
    s.push(c)
}

/// The characters of a string slice, in order.
pub fn chars_of(s: &str) -> (v: Vec<char>)
    ensures
        v@ == s@,
{
    let mut v: Vec<char> = Vec::new();
    for c in it: s.chars()
        invariant
            v.len() == it.index(),
            forall|i: int| 0 <= i < v.len() ==> v@[i] == it.seq()[i],
            it.seq() == s@,
    {
        v.push(c);
    }
    assert(v@ =~= s@);
    v
}

/// A string holding exactly the given characters.
pub fn string_of(v: &Vec<char>) -> (s: String)
    ensures
        s@ == v@,
{
    let mut s = String::new();
    for i in 0..v.len()
        invariant
            s@ == v@.take(i as int),
    {
        push_char(&mut s, v[i]);
        assert(v@.take(i as int).push(v@[i as int]) =~= v@.take(i + 1));
    }
    assert(v@.take(v.len() as int) =~= v@);
    s
}

/// Whether `needle` occurs in `hay` at position `i`.
pub fn occurs_at_exec(hay: &Vec<char>, needle: &Vec<char>, i: usize) -> (r: bool)
    ensures
        r == occurs_at(hay@, needle@, i as int),
{
    if needle.len() > hay.len() || i > hay.len() - needle.len() {
        return false;
    }
    let mut j: usize = 0;
    while j < needle.len()
        invariant
            j <= needle.len(),
            i + needle.len() <= hay.len(),
            forall|k: int| 0 <= k < j ==> hay@[i + k] == needle@[k],
        decreases needle.len() - j,
    {
        if hay[i + j] != needle[j] {
            assert(hay@.subrange(i as int, i + needle.len())[j as int] != needle@[j as int]);
            return false;
        }
        j = j + 1;
    }
    assert(hay@.subrange(i as int, i + needle.len()) =~= needle@);
    true
}

/// Whether `needle` occurs anywhere in `hay`.
pub fn contains_chars(hay: &Vec<char>, needle: &Vec<char>) -> (r: bool)
    ensures
        r == has_substring(hay@, needle@),
{
    if needle.len() > hay.len() {
        assert forall|i: int| !occurs_at(hay@, needle@, i) by {}
        return false;
    }
    let last = hay.len() - needle.len();
    let mut i: usize = 0;
    while i <= last
        invariant_except_break
            i <= last,
        invariant
            last == hay.len() - needle.len(),
            forall|k: int| 0 <= k < i ==> !occurs_at(hay@, needle@, k),
        ensures
            i == last,
            forall|k: int| 0 <= k <= last ==> !occurs_at(hay@, needle@, k),
        decreases last - i,
    {
        if occurs_at_exec(hay, needle, i) {
            return true;
        }
        if i == last {
            break;
        }
        i = i + 1;
    }
    assert forall|k: int| !occurs_at(hay@, needle@, k) by {
        if 0 <= k <= last {
        }
    }
    false
}

/// Whether `needle` occurs in `hay`.
pub fn str_contains(hay: &str, needle: &str) -> (r: bool)
    ensures
        r == has_substring(hay@, needle@),
{
    contains_chars(&chars_of(hay), &chars_of(needle))
}

/// An ASCII letter or digit.
pub open spec fn word_char(c: char) -> bool {
    (48 <= (c as u32) <= 57) || (65 <= (c as u32) <= 90) || (97 <= (c as u32) <= 122)
}

/// `w` occurs in `s` as a whole word: not preceded or followed by an ASCII
/// letter or digit.
pub open spec fn has_word(s: Seq<char>, w: Seq<char>) -> bool {
    exists|i: int| #[trigger] occurs_at(s, w, i) && (i == 0 || !word_char(s[i - 1])) && (i + w.len() == s.len()
        || !word_char(s[i + w.len()]))
}

fn is_word_char(c: char) -> (r: bool)
    ensures
        r == word_char(c),
{
    let u = c as u32;
    (48 <= u && u <= 57) || (65 <= u && u <= 90) || (97 <= u && u <= 122)
}

/// Whether `w` occurs in `s` as a whole word.
pub fn str_has_word(s: &str, w: &str) -> (r: bool)
    ensures
        r == has_word(s@, w@),
{
    let sv = chars_of(s);
    let wv = chars_of(w);
    let n = sv.len();
    let m = wv.len();
    if m > n {
        assert(!has_word(s@, w@)) by {
            if has_word(s@, w@) {
                let i = choose|i: int| #[trigger] occurs_at(s@, w@, i) && (i == 0 || !word_char(s@[i - 1])) && (i + w@.len() == s@.len()
                    || !word_char(s@[i + w@.len()]));
            }
        }
        return false;
    }
    let mut i: usize = 0;
    loop
        invariant
            sv@ == s@,
            wv@ == w@,
            n == sv.len(),
            m == wv.len(),
            m <= n,
            i <= n - m,
            forall|j: int| 0 <= j < i ==> !(#[trigger] occurs_at(s@, w@, j) && (j == 0 || !word_char(s@[j - 1])) && (j + w@.len() == s@.len()
                || !word_char(s@[j + w@.len()]))),
        ensures
            forall|j: int| 0 <= j <= n - m ==> !(#[trigger] occurs_at(s@, w@, j) && (j == 0 || !word_char(s@[j - 1])) && (j + w@.len() == s@.len()
                || !word_char(s@[j + w@.len()]))),
        decreases n - m - i,
    {
        if occurs_at_exec(&sv, &wv, i) {
            let before_ok = i == 0 || !is_word_char(sv[i - 1]);
            let after_ok = i + m == n || !is_word_char(sv[i + m]);
            if before_ok && after_ok {
                assert(occurs_at(s@, w@, i as int));
                return true;
            }
        }
        if i == n - m {
            break;
        }
        i = i + 1;
    }
    assert(!has_word(s@, w@)) by {
        if has_word(s@, w@) {
            let j = choose|j: int| #[trigger] occurs_at(s@, w@, j) && (j == 0 || !word_char(s@[j - 1])) && (j + w@.len() == s@.len()
                || !word_char(s@[j + w@.len()]));
            assert(j + m <= n);
        }
    }
    false
}

/// Whether `s` begins with `prefix`.
pub fn str_starts_with(s: &str, prefix: &str) -> (r: bool)
    ensures
        r == starts_with(s@, prefix@),
{
    occurs_at_exec(&chars_of(s), &chars_of(prefix), 0)
}

/// Whether `s` ends with `suffix`.
pub fn str_ends_with(s: &str, suffix: &str) -> (r: bool)
    ensures
        r == ends_with(s@, suffix@),
{
    let sv = chars_of(s);
    let xv = chars_of(suffix);
    if xv.len() > sv.len() {
        return false;
    }
    occurs_at_exec(&sv, &xv, sv.len() - xv.len())
}

/// Whether two strings hold the same characters.
pub fn str_eq(a: &str, b: &str) -> (r: bool)
    ensures
        r == (a@ == b@),
{
    let av = chars_of(a);
    let bv = chars_of(b);
    if av.len() != bv.len() {
        return false;
    }
    assert(av@.subrange(0, av@.len() as int) =~= av@);
    occurs_at_exec(&av, &bv, 0)
}

/// The concatenation of two strings.
pub fn concat(a: &str, b: &str) -> (r: String)
    ensures
        r@ == a@ + b@,
{
    let s = String::from_str(a);
    s.concat(b)
}


/// Index of the first occurrence of `c` in `s`, or `s.len()` when absent.
pub open spec fn first_index_of(s: Seq<char>, c: char) -> int
    decreases s.len(),
{
    if s.len() == 0 {
        0
    } else if s[0] == c {
        0
    } else {
        1 + first_index_of(s.drop_first(), c)
    }
}

/// `s` without one trailing carriage return, if it has one.
pub open spec fn strip_cr(s: Seq<char>) -> Seq<char> {
    if s.len() > 0 && s.last() == '\r' {
        s.drop_last()
    } else {
        s
    }
}

/// The lines of a text as `str::lines` gives them: split at `\n`, one
/// `\r` before the `\n` removed, and no empty line after a final `\n`.
pub open spec fn lines(s: Seq<char>) -> Seq<Seq<char>>
    decreases s.len(),
{
    if s.len() == 0 {
        seq![]
    } else {
        let k = first_index_of(s, '\n');
        if k < 0 || k >= s.len() {
            seq![s]
        } else {
            seq![strip_cr(s.take(k))] + lines(s.skip(k + 1))
        }
    }
}

pub proof fn lemma_first_index_bounds(s: Seq<char>, c: char)
    ensures
        0 <= first_index_of(s, c) <= s.len(),
        forall|i: int| 0 <= i < first_index_of(s, c) ==> s[i] != c,
        first_index_of(s, c) < s.len() ==> s[first_index_of(s, c)] == c,
    decreases s.len(),
{
    if s.len() > 0 && s[0] != c {
        lemma_first_index_bounds(s.drop_first(), c);
        assert forall|i: int| 0 <= i < first_index_of(s, c) implies s[i] != c by {
            if i > 0 {
                assert(s[i] == s.drop_first()[i - 1]);
            }
        }
    }
}

/// A first index at which `c` occurs, and before which it does not, is `first_index_of`.
pub proof fn lemma_first_index_unique(s: Seq<char>, c: char, k: int)
    requires
        0 <= k <= s.len(),
        forall|i: int| 0 <= i < k ==> s[i] != c,
        k < s.len() ==> s[k] == c,
    ensures
        first_index_of(s, c) == k,
    decreases s.len(),
{
    if s.len() > 0 && k > 0 {
        assert(s[0] != c);
        assert forall|i: int| 0 <= i < k - 1 implies s.drop_first()[i] != c by {
            assert(s.drop_first()[i] == s[i + 1]);
        }
        lemma_first_index_unique(s.drop_first(), c, k - 1);
    }
}

/// Lines split at each line end: the lines of a text that ends with a line
/// end, followed by more text, are its lines followed by those of the rest.
pub proof fn lemma_lines_append(a: Seq<char>, b: Seq<char>)
    requires
        a.len() == 0 || a.last() == '\n',
    ensures
        lines(a + b) == lines(a) + lines(b),
    decreases a.len(),
{
    if a.len() == 0 {
        assert(a + b =~= b);
        assert(lines(a) =~= Seq::<Seq<char>>::empty());
        assert(lines(a) + lines(b) =~= lines(b));
    } else {
        let ab = a + b;
        lemma_first_index_bounds(a, '\n');
        let k = first_index_of(a, '\n');
        assert(a[a.len() - 1] == '\n');
        assert(k < a.len());
        assert forall|i: int| 0 <= i < k implies ab[i] != '\n' by {
            assert(ab[i] == a[i]);
        }
        lemma_first_index_unique(ab, '\n', k);
        assert(ab.take(k) =~= a.take(k));
        let rest = a.skip(k + 1);
        assert(ab.skip(k + 1) =~= rest + b);
        if rest.len() > 0 {
            assert(rest.last() == a.last());
        }
        lemma_lines_append(rest, b);
        assert(lines(ab) == seq![strip_cr(a.take(k))] + lines(rest + b));
        assert(lines(a) == seq![strip_cr(a.take(k))] + lines(rest));
        assert(lines(ab) =~= lines(a) + lines(b));
    }
}

/// The lines of `text`, as `str::lines` splits it.
pub fn lines_of(text: &Vec<char>) -> (r: Vec<Vec<char>>)
    ensures
        r@.len() == lines(text@).len(),
        forall|i: int| 0 <= i < r@.len() ==> #[trigger] r@[i]@ == lines(text@)[i],
{
    let n = text.len();
    let mut out: Vec<Vec<char>> = Vec::new();
    let mut start: usize = 0;
    let ghost mut done: Seq<Seq<char>> = seq![];
    assert(text@.skip(0) =~= text@);
    assert(done + lines(text@) =~= lines(text@));
    while start < n
        invariant
            n == text.len(),
            start <= n,
            out@.len() == done.len(),
            forall|i: int| 0 <= i < out@.len() ==> #[trigger] out@[i]@ == done[i],
            done + lines(text@.skip(start as int)) == lines(text@),
        decreases n - start,
    {
        let ghost rest = text@.skip(start as int);
        let mut j: usize = start;
        while j < n && text[j] != '\n'
            invariant
                start <= j <= n,
                n == text.len(),
                forall|i: int| start <= i < j ==> text@[i] != '\n',
            decreases n - j,
        {
            j = j + 1;
        }
        proof {
            assert forall|i: int| 0 <= i < j - start implies rest[i] != '\n' by {
                assert(rest[i] == text@[start + i]);
            }
            if j < n {
                assert(rest[j - start] == text@[j as int]);
            }
            lemma_first_index_unique(rest, '\n', j - start);
            assert(rest.len() > 0);
        }
        let mut line: Vec<char> = Vec::new();
        let mut k: usize = start;
        while k < j
            invariant
                start <= k <= j <= n,
                n == text.len(),
                line@ == text@.subrange(start as int, k as int),
            decreases j - k,
        {
            line.push(text[k]);
            assert(text@.subrange(start as int, k as int).push(text@[k as int]) =~= text@.subrange(
                start as int,
                k + 1,
            ));
            k = k + 1;
        }
        if j < n {
            if line.len() > 0 && line[line.len() - 1] == '\r' {
                line.pop();
            }
            proof {
                assert(rest.take(j - start) =~= text@.subrange(start as int, j as int));
                assert(rest.skip(j - start + 1) =~= text@.skip(j + 1));
                assert(lines(rest) == seq![strip_cr(rest.take(j - start))] + lines(rest.skip(j - start + 1)));
                assert(line@ == strip_cr(rest.take(j - start)));
                done = done.push(line@);
                assert(done + lines(text@.skip(j + 1)) =~= (done.drop_last() + lines(rest)));
            }
            out.push(line);
            start = j + 1;
        } else {
            proof {
                assert(rest =~= text@.subrange(start as int, n as int));
                assert(lines(rest) == seq![rest]);
                done = done.push(line@);
                assert(text@.skip(n as int) =~= Seq::<char>::empty());
                assert(lines(text@.skip(n as int)) =~= Seq::<Seq<char>>::empty());
                assert(done + lines(text@.skip(n as int)) =~= done.drop_last() + lines(rest));
            }
            out.push(line);
            start = n;
        }
    }
    proof {
        assert(text@.skip(n as int) =~= Seq::<char>::empty());
        assert(done + lines(text@.skip(n as int)) =~= done);
    }
    out
}


/// Position of the first `c` at or after `start` in `v`, or `v.len()`.
pub fn find_char_from(v: &Vec<char>, start: usize, c: char) -> (r: usize)
    requires
        start <= v.len(),
    ensures
        r == start + first_index_of(v@.skip(start as int), c),
        start <= r <= v.len(),
{
    let mut j = start;
    while j < v.len() && v[j] != c
        invariant
            start <= j <= v.len(),
            forall|i: int| start <= i < j ==> v@[i] != c,
        decreases v.len() - j,
    {
        j = j + 1;
    }
    proof {
        let rest = v@.skip(start as int);
        assert forall|i: int| 0 <= i < j - start implies rest[i] != c by {
            assert(rest[i] == v@[start + i]);
        }
        if j < v.len() {
            assert(rest[j - start] == v@[j as int]);
        }
        lemma_first_index_unique(rest, c, j - start);
    }
    j
}

/// The piece after the first `sep` and up to the next `sep` (or the end),
/// as `split(sep).nth(1)` gives it; `None` when `sep` does not occur.
pub open spec fn second_field(s: Seq<char>, sep: char) -> Option<Seq<char>> {
    let k = first_index_of(s, sep);
    if k >= s.len() {
        None
    } else {
        let rest = s.skip(k + 1);
        Some(rest.take(first_index_of(rest, sep)))
    }
}

/// The elements of `v` in positions `from..to`.
pub fn slice_chars(v: &Vec<char>, from: usize, to: usize) -> (r: Vec<char>)
    requires
        from <= to <= v.len(),
    ensures
        r@ == v@.subrange(from as int, to as int),
{
    let mut r: Vec<char> = Vec::new();
    let mut k = from;
    while k < to
        invariant
            from <= k <= to <= v.len(),
            r@ == v@.subrange(from as int, k as int),
        decreases to - k,
    {
        r.push(v[k]);
        assert(v@.subrange(from as int, k as int).push(v@[k as int]) =~= v@.subrange(
            from as int,
            k + 1,
        ));
        k = k + 1;
    }
    r
}

/// `split(sep).nth(1)` on the characters of `v`.
pub fn second_field_of(v: &Vec<char>, sep: char) -> (r: Option<Vec<char>>)
    ensures
        match r {
            Some(f) => second_field(v@, sep) == Some(f@),
            None => second_field(v@, sep) is None,
        },
{
    proof {
        assert(v@.skip(0) =~= v@);
    }
    let k = find_char_from(v, 0, sep);
    if k >= v.len() {
        return None;
    }
    let e = find_char_from(v, k + 1, sep);
    proof {
        lemma_first_index_bounds(v@.skip(k + 1), sep);
        assert(v@.skip(k + 1).take(e - (k + 1)) =~= v@.subrange(k + 1, e as int));
    }
    Some(slice_chars(v, k + 1, e))
}

/// What `char::is_whitespace` returns: whether the character has the
/// Unicode `White_Space` property.
pub uninterp spec fn whitespace(c: char) -> bool;

/// Calls `char::is_whitespace`; claimed: the result is `whitespace(c)`.
#[verifier::external_body]
pub(crate) fn is_whitespace(c: char) -> (r: bool)
    ensures
        r == whitespace(c),
{
    c.is_whitespace()
}

/// Number of leading whitespace characters of `s`.
pub open spec fn leading_ws(s: Seq<char>) -> int
    decreases s.len(),
{
    if s.len() == 0 {
        0
    } else if whitespace(s[0]) {
        1 + leading_ws(s.drop_first())
    } else {
        0
    }
}

/// Number of leading characters of `s` that are not whitespace.
pub open spec fn leading_non_ws(s: Seq<char>) -> int
    decreases s.len(),
{
    if s.len() == 0 {
        0
    } else if !whitespace(s[0]) {
        1 + leading_non_ws(s.drop_first())
    } else {
        0
    }
}

/// Number of trailing whitespace characters of `s`.
pub open spec fn trailing_ws(s: Seq<char>) -> int
    decreases s.len(),
{
    if s.len() == 0 {
        0
    } else if whitespace(s.last()) {
        1 + trailing_ws(s.drop_last())
    } else {
        0
    }
}

/// `s` without leading and trailing whitespace, as `str::trim` gives it.
pub open spec fn trim(s: Seq<char>) -> Seq<char> {
    let t = s.skip(leading_ws(s));
    t.take(t.len() - trailing_ws(t))
}

/// The first whitespace-separated word, as `split_whitespace().next()` gives it.
pub open spec fn first_word(s: Seq<char>) -> Option<Seq<char>> {
    let t = s.skip(leading_ws(s));
    if t.len() == 0 {
        None
    } else {
        Some(t.take(leading_non_ws(t)))
    }
}

pub proof fn lemma_leading_ws_unique(s: Seq<char>, k: int)
    requires
        0 <= k <= s.len(),
        forall|i: int| 0 <= i < k ==> whitespace(s[i]),
        k < s.len() ==> !whitespace(s[k]),
    ensures
        leading_ws(s) == k,
    decreases s.len(),
{
    if s.len() > 0 && k > 0 {
        assert forall|i: int| 0 <= i < k - 1 implies whitespace(s.drop_first()[i]) by {
            assert(s.drop_first()[i] == s[i + 1]);
        }
        if k - 1 < s.len() - 1 {
            assert(s.drop_first()[k - 1] == s[k]);
        }
        lemma_leading_ws_unique(s.drop_first(), k - 1);
    }
}

pub proof fn lemma_leading_non_ws_unique(s: Seq<char>, k: int)
    requires
        0 <= k <= s.len(),
        forall|i: int| 0 <= i < k ==> !whitespace(s[i]),
        k < s.len() ==> whitespace(s[k]),
    ensures
        leading_non_ws(s) == k,
    decreases s.len(),
{
    if s.len() > 0 && k > 0 {
        assert forall|i: int| 0 <= i < k - 1 implies !whitespace(s.drop_first()[i]) by {
            assert(s.drop_first()[i] == s[i + 1]);
        }
        if k - 1 < s.len() - 1 {
            assert(s.drop_first()[k - 1] == s[k]);
        }
        lemma_leading_non_ws_unique(s.drop_first(), k - 1);
    }
}

pub proof fn lemma_trailing_ws_unique(s: Seq<char>, k: int)
    requires
        0 <= k <= s.len(),
        forall|i: int| s.len() - k <= i < s.len() ==> whitespace(s[i]),
        k < s.len() ==> !whitespace(s[s.len() - 1 - k]),
    ensures
        trailing_ws(s) == k,
    decreases s.len(),
{
    if s.len() > 0 && k > 0 {
        let d = s.drop_last();
        assert forall|i: int| d.len() - (k - 1) <= i < d.len() implies whitespace(d[i]) by {
            assert(d[i] == s[i]);
        }
        if k - 1 < d.len() {
            assert(d[d.len() - 1 - (k - 1)] == s[s.len() - 1 - k]);
        }
        lemma_trailing_ws_unique(d, k - 1);
    }
}

/// `s` without leading and trailing whitespace.
pub fn trim_chars(v: &Vec<char>) -> (r: Vec<char>)
    ensures
        r@ == trim(v@),
{
    let n = v.len();
    let mut a: usize = 0;
    while a < n && is_whitespace(v[a])
        invariant
            a <= n == v.len(),
            forall|i: int| 0 <= i < a ==> whitespace(v@[i]),
        decreases n - a,
    {
        a = a + 1;
    }
    let mut b: usize = n;
    while b > a && is_whitespace(v[b - 1])
        invariant
            a <= b <= n == v.len(),
            forall|i: int| b <= i < n ==> whitespace(v@[i]),
        decreases b - a,
    {
        b = b - 1;
    }
    proof {
        lemma_leading_ws_unique(v@, a as int);
        let t = v@.skip(a as int);
        assert forall|i: int| t.len() - (n - b) <= i < t.len() implies whitespace(t[i]) by {
            assert(t[i] == v@[a + i]);
        }
        if n - b < t.len() {
            assert(t[t.len() - 1 - (n - b)] == v@[b - 1]);
        }
        lemma_trailing_ws_unique(t, (n - b) as int);
        assert(t.take(t.len() - (n - b)) =~= v@.subrange(a as int, b as int));
    }
    slice_chars(v, a, b)
}

/// The first whitespace-separated word of `v`, if any.
pub fn first_word_of(v: &Vec<char>) -> (r: Option<Vec<char>>)
    ensures
        match r {
            Some(w) => first_word(v@) == Some(w@),
            None => first_word(v@) is None,
        },
{
    let n = v.len();
    let mut a: usize = 0;
    while a < n && is_whitespace(v[a])
        invariant
            a <= n == v.len(),
            forall|i: int| 0 <= i < a ==> whitespace(v@[i]),
        decreases n - a,
    {
        a = a + 1;
    }
    proof {
        lemma_leading_ws_unique(v@, a as int);
    }
    if a == n {
        return None;
    }
    let mut b: usize = a;
    while b < n && !is_whitespace(v[b])
        invariant
            a <= b <= n == v.len(),
            forall|i: int| a <= i < b ==> !whitespace(v@[i]),
        decreases n - b,
    {
        b = b + 1;
    }
    proof {
        let t = v@.skip(a as int);
        assert forall|i: int| 0 <= i < b - a implies !whitespace(t[i]) by {
            assert(t[i] == v@[a + i]);
        }
        if b - a < t.len() {
            assert(t[b - a] == v@[b as int]);
        }
        lemma_leading_non_ws_unique(t, b - a);
        assert(t.take(b - a) =~= v@.subrange(a as int, b as int));
    }
    Some(slice_chars(v, a, b))
}


/// `c` is an ASCII decimal digit.
pub open spec fn is_digit(c: char) -> bool {
    '0' <= c && c <= '9'
}

/// The number that a sequence of decimal digits denotes.
pub open spec fn digits_value(s: Seq<char>) -> nat
    decreases s.len(),
{
    if s.len() == 0 {
        0
    } else {
        digits_value(s.drop_last()) * 10 + ((s.last() as int) - ('0' as int)) as nat
    }
}

/// What `str::parse::<usize>` accepts and gives: an optional `+` followed
/// by one or more decimal digits whose value fits in `usize`.
pub open spec fn parsed_usize(s: Seq<char>) -> Option<usize> {
    let d = if s.len() > 0 && s[0] == '+' {
        s.drop_first()
    } else {
        s
    };
    if d.len() > 0 && (forall|i: int| 0 <= i < d.len() ==> is_digit(#[trigger] d[i]))
        && digits_value(d) <= usize::MAX {
        Some(digits_value(d) as usize)
    } else {
        None
    }
}

/// Calls `str::parse::<usize>`. Claimed, as the documentation of
/// `usize::from_str` says: it succeeds exactly on an optional `+` followed
/// by decimal digits whose value fits, and gives that value.
#[verifier::external_body]
pub(crate) fn parse_usize(s: &str) -> (r: Option<usize>)
    ensures
        r == parsed_usize(s@),
{
    s.parse::<usize>().ok()
}

/// The pieces of `s` between occurrences of `sep`, as `str::split` gives them.
pub open spec fn split(s: Seq<char>, sep: char) -> Seq<Seq<char>>
    decreases s.len(),
{
    let k = first_index_of(s, sep);
    if k < 0 || k >= s.len() {
        seq![s]
    } else {
        seq![s.take(k)] + split(s.skip(k + 1), sep)
    }
}

/// The pieces of `v` between occurrences of `sep`.
pub fn split_chars(v: &Vec<char>, sep: char) -> (r: Vec<Vec<char>>)
    ensures
        r@.len() == split(v@, sep).len(),
        forall|i: int| 0 <= i < r@.len() ==> #[trigger] r@[i]@ == split(v@, sep)[i],
{
    let n = v.len();
    let mut out: Vec<Vec<char>> = Vec::new();
    let mut start: usize = 0;
    let ghost mut done: Seq<Seq<char>> = seq![];
    assert(v@.skip(0) =~= v@);
    assert(done + split(v@, sep) =~= split(v@, sep));
    loop
        invariant
            n == v.len(),
            start <= n,
            out@.len() == done.len(),
            forall|i: int| 0 <= i < out@.len() ==> #[trigger] out@[i]@ == done[i],
            done + split(v@.skip(start as int), sep) == split(v@, sep),
        decreases n - start,
    {
        let ghost rest = v@.skip(start as int);
        let j = find_char_from(v, start, sep);
        proof {
            lemma_first_index_bounds(rest, sep);
        }
        let piece = slice_chars(v, start, j);
        if j < n {
            proof {
                assert(rest.take(j - start) =~= v@.subrange(start as int, j as int));
                assert(rest.skip(j - start + 1) =~= v@.skip(j + 1));
                done = done.push(piece@);
                assert(done + split(v@.skip(j + 1), sep) =~= done.drop_last() + split(rest, sep));
            }
            out.push(piece);
            start = j + 1;
        } else {
            proof {
                assert(rest =~= v@.subrange(start as int, n as int));
                done = done.push(piece@);
                assert(done =~= done.drop_last() + split(rest, sep));
            }
            out.push(piece);
            return out;
        }
    }
}

/// Whether two character vectors are equal.
pub fn chars_eq(a: &Vec<char>, b: &Vec<char>) -> (r: bool)
    ensures
        r == (a@ == b@),
{
    if a.len() != b.len() {
        return false;
    }
    assert(a@.subrange(0, a@.len() as int) =~= a@);
    occurs_at_exec(a, b, 0)
}

/// Whether `x` is one of the elements of `v`.
pub fn contains_word(v: &Vec<Vec<char>>, x: &Vec<char>) -> (r: bool)
    ensures
        r == exists|i: int| 0 <= i < v@.len() && #[trigger] v@[i]@ == x@,
{
    let mut i: usize = 0;
    while i < v.len()
        invariant
            i <= v.len(),
            forall|k: int| 0 <= k < i ==> #[trigger] v@[k]@ != x@,
        decreases v.len() - i,
    {
        if chars_eq(&v[i], x) {
            return true;
        }
        i = i + 1;
    }
    false
}

/// `s` with later repetitions of an element removed, first occurrences kept in order.
pub open spec fn dedup<T>(s: Seq<T>) -> Seq<T>
    decreases s.len(),
{
    if s.len() == 0 {
        seq![]
    } else {
        let d = dedup(s.drop_last());
        if d.contains(s.last()) {
            d
        } else {
            d.push(s.last())
        }
    }
}


/// The character sequences held by a vector of character vectors.
pub open spec fn views(v: Seq<Vec<char>>) -> Seq<Seq<char>> {
    v.map_values(|x: Vec<char>| x@)
}

/// The character sequences held by a vector of strings.
pub open spec fn strs(v: Seq<String>) -> Seq<Seq<char>> {
    v.map_values(|x: String| x@)
}

/// `v` with later repetitions removed, first occurrences kept in order.
pub fn dedup_words(v: &Vec<Vec<char>>) -> (r: Vec<Vec<char>>)
    ensures
        views(r@) == dedup(views(v@)),
{
    let mut out: Vec<Vec<char>> = Vec::new();
    let mut i: usize = 0;
    while i < v.len()
        invariant
            i <= v.len(),
            views(out@) == dedup(views(v@).take(i as int)),
        decreases v.len() - i,
    {
        let ghost s = views(v@).take(i + 1);
        assert(s.drop_last() =~= views(v@).take(i as int));
        assert(s.last() == v@[i as int]@);
        let found = contains_word(&out, &v[i]);
        proof {
            if found {
                let k = choose|k: int| 0 <= k < out@.len() && #[trigger] out@[k]@ == v@[i as int]@;
                assert(views(out@)[k] == v@[i as int]@);
            } else {
                assert forall|k: int| 0 <= k < views(out@).len() implies views(out@)[k] != s.last() by {
                    assert(views(out@)[k] == out@[k]@);
                }
            }
        }
        if !found {
            let w = v[i].clone();
            out.push(w);
            assert(views(out@) =~= dedup(views(v@).take(i as int)).push(s.last()));
        }
        i = i + 1;
    }
    assert(views(v@).take(v.len() as int) =~= views(v@));
    out
}

/// Strings holding the given character vectors, in order.
pub fn strings_of(v: &Vec<Vec<char>>) -> (r: Vec<String>)
    ensures
        strs(r@) == views(v@),
{
    let mut out: Vec<String> = Vec::new();
    let mut i: usize = 0;
    while i < v.len()
        invariant
            i <= v.len(),
            out@.len() == i,
            strs(out@) == views(v@).take(i as int),
        decreases v.len() - i,
    {
        let ghost prev = out@;
        out.push(string_of(&v[i]));
        assert forall|k: int| 0 <= k < i + 1 implies strs(out@)[k] == views(v@).take(i + 1)[k] by {
            if k < i {
                assert(out@[k] == prev[k]);
                assert(strs(prev)[k] == views(v@).take(i as int)[k]);
            }
        }
        assert(strs(out@) =~= views(v@).take(i + 1));
        i = i + 1;
    }
    assert(views(v@).take(v.len() as int) =~= views(v@));
    out
}


/// The decimal digit for `d < 10`.
pub open spec fn digit_char(d: nat) -> char {
    ((d + ('0' as nat)) as u32) as char
}

/// The decimal representation of `n`, as `{}` formats an unsigned integer.
pub open spec fn decimal(n: nat) -> Seq<char>
    decreases n,
{
    if n < 10 {
        seq![digit_char(n)]
    } else {
        decimal(n / 10).push(digit_char(n % 10))
    }
}

fn digit_of(d: u64) -> (c: char)
    requires
        d < 10,
    ensures
        c == digit_char(d as nat),
{
    if d == 0 { '0' } else if d == 1 { '1' } else if d == 2 { '2' } else if d == 3 { '3' }
    else if d == 4 { '4' } else if d == 5 { '5' } else if d == 6 { '6' } else if d == 7 { '7' }
    else if d == 8 { '8' } else { '9' }
}

/// The decimal representation of `n`.
pub fn decimal_string(n: u64) -> (s: String)
    ensures
        s@ == decimal(n as nat),
    decreases n,
{
    if n < 10 {
        let mut s = String::new();
        push_char(&mut s, digit_of(n));
        assert(s@ =~= seq![digit_char(n as nat)]);
        s
    } else {
        let mut s = decimal_string(n / 10);
        push_char(&mut s, digit_of(n % 10));
        s
    }
}

/// What `String::from_utf8_lossy` gives for these bytes: their decoding,
/// with each invalid sequence replaced by U+FFFD.
pub uninterp spec fn lossy_utf8(b: Seq<u8>) -> Seq<char>;

/// Calls `String::from_utf8_lossy`. Claimed: the result is `lossy_utf8` of
/// the bytes, and, as its documentation says, the plain decoding when the
/// bytes are valid UTF-8.
#[verifier::external_body]
pub(crate) fn from_utf8_lossy(b: &[u8]) -> (s: String)
    ensures
        s@ == lossy_utf8(b@),
        vstd::utf8::valid_utf8(b@) ==> s@ == vstd::utf8::decode_utf8(b@),
{
    String::from_utf8_lossy(b).to_string()
}


/// Removing repetitions leaves each element once and loses none: the result
/// has no duplicates and holds exactly the elements of the input.
pub proof fn lemma_dedup_props<T>(s: Seq<T>)
    ensures
        dedup(s).no_duplicates(),
        forall|x: T| dedup(s).contains(x) <==> s.contains(x),
    decreases s.len(),
{
    if s.len() > 0 {
        let p = s.drop_last();
        let l = s.last();
        let d = dedup(p);
        lemma_dedup_props(p);
        assert forall|x: T| s.contains(x) <==> (p.contains(x) || x == l) by {
            if s.contains(x) {
                let i = choose|i: int| 0 <= i < s.len() && s[i] == x;
                if i < p.len() {
                    assert(p[i] == x);
                }
            }
            if p.contains(x) {
                let i = choose|i: int| 0 <= i < p.len() && p[i] == x;
                assert(s[i] == x);
            }
            if x == l {
                assert(s[s.len() - 1] == x);
            }
        }
        if d.contains(l) {
            assert(dedup(s) == d);
        } else {
            let e = d.push(l);
            assert(dedup(s) == e);
            assert forall|x: T| e.contains(x) <==> (d.contains(x) || x == l) by {
                if e.contains(x) {
                    let i = choose|i: int| 0 <= i < e.len() && e[i] == x;
                    if i < d.len() {
                        assert(d[i] == x);
                    }
                }
                if d.contains(x) {
                    let i = choose|i: int| 0 <= i < d.len() && d[i] == x;
                    assert(e[i] == x);
                }
                if x == l {
                    assert(e[d.len() as int] == x);
                }
            }
            assert forall|i: int, j: int| 0 <= i < e.len() && 0 <= j < e.len() && i != j implies e[i] != e[j] by {
                if i < d.len() && j < d.len() {
                    assert(e[i] == d[i] && e[j] == d[j]);
                } else if i < d.len() {
                    assert(e[i] == d[i]);
                    assert(d.contains(e[i]));
                } else {
                    assert(e[j] == d[j]);
                    assert(d.contains(e[j]));
                }
            }
        }
    }
}

} // verus!
